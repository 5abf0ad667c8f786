//! The pak file reader: the trailer probe across versions, the optional
//! AES-ECB index envelope, the chained length/SHA1 integrity checks, and the
//! eager materialization of the index.

use vstd::prelude::*;

use crate::archive::ArchiveReader;
use crate::crypto::{aes_dec_of, aes256_base64_key, aes256_ecb_decrypt, base64_of, sha1_digest,
    sha1_of};
use crate::pakindex::PakIndex;
use crate::pakindexv1::{dec_v1, v1_files_view, PakIndexV1};
use crate::pakindexv2::{dec_dir_map, dec_phi_map, dec_v2_main, dir_view, dir_wf, phi_sorted,
    phi_view, region_wire_unsorted, v2_main_view, PakIndexV2};
use crate::pakinfo::{dec_info, dec_info_err, info_len, PakInfo};
use crate::{PakError, PakRegion, PakVersion};

verus! {

/// An opened pak file: its trailer and its materialized index.
pub struct PakFile {
    pub info: PakInfo,
    pub index: PakIndex,
}

/// The plaintext bytes of a region that starts at `off`: the whole rest of
/// the file when the index is not encrypted, or the decryption of exactly
/// `size` bytes when it is.
pub open spec fn region_plain(
    data: Seq<u8>,
    enc: bool,
    keyb: Seq<u8>,
    off: int,
    size: int,
) -> Seq<u8> {
    if enc {
        aes_dec_of(keyb, data.subrange(off, off + size))
    } else {
        data.skip(off)
    }
}

/// The byte count a region boundary accounts for: when decrypting, a
/// shortfall below one AES block is read as padding.
pub open spec fn padded_len(n: int, size: int, enc: bool) -> int {
    if enc && n <= size && size - n < 16 {
        size
    } else {
        n
    }
}

/// The key material is usable: absent, or valid base64 of exactly 32 bytes.
pub open spec fn load_key_ok(info: crate::pakinfo::PakInfoV, key: Seq<char>) -> bool {
    info.encrypted_index ==> match base64_of(key) {
        Some(kb) => kb.len() == 32,
        None => false,
    }
}

/// The decoded key bytes, when the index is encrypted.
pub open spec fn load_key_of(info: crate::pakinfo::PakInfoV, key: Seq<char>) -> Seq<u8> {
    if info.encrypted_index {
        base64_of(key)->Some_0
    } else {
        Seq::empty()
    }
}

/// A region can be brought in: in bounds, and block-aligned when encrypted.
pub open spec fn region_ok(data: Seq<u8>, enc: bool, off: int, size: int) -> bool {
    if enc {
        off <= data.len() && size <= data.len() - off && size % 16 == 0
    } else {
        off <= data.len()
    }
}

/// A boundary passed: the consumed count, padded to the AES block when
/// decrypting, equals the recorded size, and the SHA1 over the counted bytes
/// equals the recorded hash.
pub open spec fn region_checked(
    plain: Seq<u8>,
    consumed: int,
    size: int,
    hash: Seq<u8>,
    enc: bool,
) -> bool {
    &&& padded_len(consumed, size, enc) == size
    &&& size <= plain.len()
    &&& sha1_of(plain.take(size)) == hash
}

/// A secondary-region branch of a V2 index read and verified.
pub open spec fn sub_region_loaded(
    data: Seq<u8>,
    enc: bool,
    kb: Seq<u8>,
    off: int,
    size: int,
    hash: Seq<u8>,
    phi: Seq<(u64, i32)>,
    dirs: Seq<(Seq<char>, Seq<(Seq<char>, i32)>)>,
    with_phi: bool,
) -> bool {
    let pp = region_plain(data, enc, kb, off, size);
    &&& off >= 0
    &&& size >= 0
    &&& region_ok(data, enc, off, size)
    &&& (if with_phi {
        &&& dec_phi_map(pp) is Some
        &&& dec_phi_map(pp)->Some_0.0 == phi
        &&& dec_dir_map(pp.skip(dec_phi_map(pp)->Some_0.1)) is Some
        &&& dec_dir_map(pp.skip(dec_phi_map(pp)->Some_0.1))->Some_0.0 == dirs
        &&& region_checked(
            pp,
            dec_phi_map(pp)->Some_0.1 + dec_dir_map(
                pp.skip(dec_phi_map(pp)->Some_0.1),
            )->Some_0.1,
            size,
            hash,
            enc,
        )
    } else {
        &&& dec_dir_map(pp) is Some
        &&& dec_dir_map(pp)->Some_0.0 == dirs
        &&& region_checked(pp, dec_dir_map(pp)->Some_0.1, size, hash, enc)
    })
}

/// Everything a successful load guarantees of the returned index: the right
/// flavor, parsed exactly from the verified (decrypted) region plaintexts,
/// with the entry cache materialized from the compact blob.
pub open spec fn index_loaded(
    data: Seq<u8>,
    key: Seq<char>,
    info: crate::pakinfo::PakInfoV,
    idx: PakIndex,
) -> bool {
    let enc = info.encrypted_index;
    let kb = load_key_of(info, key);
    let plain = region_plain(data, enc, kb, info.index_offset as int, info.index_size as int);
    &&& !info.index_is_frozen
    &&& load_key_ok(info, key)
    &&& region_ok(data, enc, info.index_offset as int, info.index_size as int)
    &&& (idx is V2 <==> info.version.spec_at_least(PakVersion::PathHashIndex))
    &&& (idx is V1 ==> ({
        let v1 = idx->V1_0;
        &&& dec_v1(plain, info.version) is Some
        &&& dec_v1(plain, info.version)->Some_0.0 == (v1.mount_point@, v1_files_view(v1.files@))
        &&& region_checked(
            plain,
            dec_v1(plain, info.version)->Some_0.1,
            info.index_size as int,
            info.hash,
            enc,
        )
    }))
    &&& (idx is V2 ==> ({
        let x = idx->V2_0;
        &&& dec_v2_main(plain, info.version) is Some
        &&& dec_v2_main(plain, info.version)->Some_0.0 == v2_main_view(x)
        &&& region_checked(
            plain,
            dec_v2_main(plain, info.version)->Some_0.1,
            info.index_size as int,
            info.hash,
            enc,
        )
        &&& (x.has_path_hash_index && x.path_hash_index_offset != -1 ==> sub_region_loaded(
            data,
            enc,
            kb,
            x.path_hash_index_offset as int,
            x.path_hash_index_size as int,
            x.path_hash_index_hash@,
            phi_view(x.path_hash_index@),
            dir_view(x.pruned_directory_index@),
            true,
        ))
        &&& (!(x.has_path_hash_index && x.path_hash_index_offset != -1)
            ==> x.path_hash_index@.len() == 0 && x.pruned_directory_index@.len() == 0)
        &&& (x.has_full_directory_index && x.full_directory_index_offset != 0
            ==> sub_region_loaded(
            data,
            enc,
            kb,
            x.full_directory_index_offset as int,
            x.full_directory_index_size as int,
            x.full_directory_index_hash@,
            Seq::empty(),
            dir_view(x.full_directory_index@),
            false,
        ))
        &&& (!(x.has_full_directory_index && x.full_directory_index_offset != 0)
            ==> x.full_directory_index@.len() == 0)
        &&& phi_sorted(x.path_hash_index@)
        &&& dir_wf(x.pruned_directory_index@)
        &&& dir_wf(x.full_directory_index@)
        &&& ({
            let locs = crate::pakindexv2::offset_locs(x.path_hash_index@);
            &&& x.decoded_pak_entries@.len() == locs.len()
            &&& forall|j: int|
                0 <= j < locs.len() ==> ({
                    let pr = #[trigger] x.decoded_pak_entries@[j];
                    &&& pr.0 == locs[j]
                    &&& pr.0 <= x.encoded_pak_entries@.len()
                    &&& crate::pakindexv2::dec_compact(
                        x.encoded_pak_entries@.skip(pr.0 as int),
                        info.version,
                    ) is Some
                    &&& crate::pakindexv2::dec_compact(
                        x.encoded_pak_entries@.skip(pr.0 as int),
                        info.version,
                    )->Some_0.0 == pr.1@
                })
        })
    }))
}

/// A secondary region that cannot be brought in, parsed or verified.
pub open spec fn sub_region_fails(
    data: Seq<u8>,
    enc: bool,
    kb: Seq<u8>,
    off: int,
    size: int,
    hash: Seq<u8>,
    with_phi: bool,
) -> bool {
    let pp = region_plain(data, enc, kb, off, size);
    ||| off < 0
    ||| size < 0
    ||| !region_ok(data, enc, off, size)
    ||| region_wire_unsorted(pp)
    ||| (if with_phi {
        ||| dec_phi_map(pp) is None
        ||| dec_dir_map(pp.skip(dec_phi_map(pp)->Some_0.1)) is None
        ||| !region_checked(
            pp,
            dec_phi_map(pp)->Some_0.1 + dec_dir_map(
                pp.skip(dec_phi_map(pp)->Some_0.1),
            )->Some_0.1,
            size,
            hash,
            enc,
        )
    } else {
        ||| dec_dir_map(pp) is None
        ||| !region_checked(pp, dec_dir_map(pp)->Some_0.1, size, hash, enc)
    })
}

/// Some blob location of the parsed path-hash map dangles or does not decode.
pub open spec fn linked_fails(phi: Seq<(u64, i32)>, blob: Seq<u8>, v: PakVersion) -> bool {
    exists|k: int|
        0 <= k < phi.len() && match crate::pakindexv2::RawPakEntryLocation::spec_get_raw(
            (#[trigger] phi[k]).1,
        ) {
            crate::pakindexv2::PakEntryLocation::Offset(o) => o > blob.len() || crate::pakindexv2::dec_compact(
                blob.skip(o as int),
                v,
            ) is None,
            _ => false,
        }
}

/// Why a load refuses a file: the complete set of failure causes.
pub open spec fn load_fails(data: Seq<u8>, key: Seq<char>, info: crate::pakinfo::PakInfoV) -> bool {
    let enc = info.encrypted_index;
    let kb = load_key_of(info, key);
    let off = info.index_offset as int;
    let size = info.index_size as int;
    let plain = region_plain(data, enc, kb, off, size);
    let v = info.version;
    ||| info.index_is_frozen
    ||| (enc && !load_key_ok(info, key))
    ||| !region_ok(data, enc, off, size)
    ||| (!v.spec_at_least(PakVersion::PathHashIndex) && (dec_v1(plain, v) is None || (dec_v1(
        plain,
        v,
    ) is Some && !region_checked(plain, dec_v1(plain, v)->Some_0.1, size, info.hash, enc))))
    ||| (v.spec_at_least(PakVersion::PathHashIndex) && (dec_v2_main(plain, v) is None || ({
        let m = dec_v2_main(plain, v)->Some_0.0;
        let n = dec_v2_main(plain, v)->Some_0.1;
        ||| !region_checked(plain, n, size, info.hash, enc)
        ||| (m.has_phi && m.phi_off != -1 && sub_region_fails(
            data,
            enc,
            kb,
            m.phi_off as int,
            m.phi_size as int,
            m.phi_hash,
            true,
        ))
        ||| (m.has_phi && m.phi_off != -1 && !sub_region_fails(
            data,
            enc,
            kb,
            m.phi_off as int,
            m.phi_size as int,
            m.phi_hash,
            true,
        ) && linked_fails(
            dec_phi_map(
                region_plain(data, enc, kb, m.phi_off as int, m.phi_size as int),
            )->Some_0.0,
            m.blob,
            v,
        ))
        ||| (m.has_fdi && m.fdi_off != 0 && sub_region_fails(
            data,
            enc,
            kb,
            m.fdi_off as int,
            m.fdi_size as int,
            m.fdi_hash,
            false,
        ))
    })))
}

/// The top-level index parsed but its boundary check failed.
pub open spec fn main_check_failed(
    data: Seq<u8>,
    key: Seq<char>,
    info: crate::pakinfo::PakInfoV,
) -> bool {
    let enc = info.encrypted_index;
    let kb = load_key_of(info, key);
    let size = info.index_size as int;
    let plain = region_plain(data, enc, kb, info.index_offset as int, size);
    let v = info.version;
    if v.spec_at_least(PakVersion::PathHashIndex) {
        dec_v2_main(plain, v) is Some && !region_checked(
            plain,
            dec_v2_main(plain, v)->Some_0.1,
            size,
            info.hash,
            enc,
        )
    } else {
        dec_v1(plain, v) is Some && !region_checked(
            plain,
            dec_v1(plain, v)->Some_0.1,
            size,
            info.hash,
            enc,
        )
    }
}

/// The PathHashIndex region parsed but its boundary check failed.
pub open spec fn phi_check_failed(
    data: Seq<u8>,
    key: Seq<char>,
    info: crate::pakinfo::PakInfoV,
) -> bool {
    let enc = info.encrypted_index;
    let kb = load_key_of(info, key);
    let plain = region_plain(data, enc, kb, info.index_offset as int, info.index_size as int);
    let v = info.version;
    &&& dec_v2_main(plain, v) is Some
    &&& ({
        let m = dec_v2_main(plain, v)->Some_0.0;
        let pp = region_plain(data, enc, kb, m.phi_off as int, m.phi_size as int);
        &&& m.has_phi
        &&& m.phi_off != -1
        &&& dec_phi_map(pp) is Some
        &&& dec_dir_map(pp.skip(dec_phi_map(pp)->Some_0.1)) is Some
        &&& !region_checked(
            pp,
            dec_phi_map(pp)->Some_0.1 + dec_dir_map(
                pp.skip(dec_phi_map(pp)->Some_0.1),
            )->Some_0.1,
            m.phi_size as int,
            m.phi_hash,
            enc,
        )
    })
}

/// The FullDirectoryIndex region parsed but its boundary check failed.
pub open spec fn fdi_check_failed(
    data: Seq<u8>,
    key: Seq<char>,
    info: crate::pakinfo::PakInfoV,
) -> bool {
    let enc = info.encrypted_index;
    let kb = load_key_of(info, key);
    let plain = region_plain(data, enc, kb, info.index_offset as int, info.index_size as int);
    let v = info.version;
    &&& dec_v2_main(plain, v) is Some
    &&& ({
        let m = dec_v2_main(plain, v)->Some_0.0;
        let fp = region_plain(data, enc, kb, m.fdi_off as int, m.fdi_size as int);
        &&& m.has_fdi
        &&& m.fdi_off != 0
        &&& dec_dir_map(fp) is Some
        &&& !region_checked(fp, dec_dir_map(fp)->Some_0.1, m.fdi_size as int, m.fdi_hash, enc)
    })
}

/// The causes that report `InvalidData`: a frozen index, negative secondary
/// offsets, out-of-order map keys, or a dangling blob location.
pub open spec fn load_invalid_data_cause(
    data: Seq<u8>,
    key: Seq<char>,
    info: crate::pakinfo::PakInfoV,
) -> bool {
    let enc = info.encrypted_index;
    let kb = load_key_of(info, key);
    let plain = region_plain(data, enc, kb, info.index_offset as int, info.index_size as int);
    let v = info.version;
    ||| info.index_is_frozen
    ||| (dec_v2_main(plain, v) is Some && ({
        let m = dec_v2_main(plain, v)->Some_0.0;
        let pp = region_plain(data, enc, kb, m.phi_off as int, m.phi_size as int);
        let fp = region_plain(data, enc, kb, m.fdi_off as int, m.fdi_size as int);
        ||| (m.has_phi && m.phi_off != -1 && (m.phi_off < 0 || m.phi_size < 0
            || region_wire_unsorted(pp)))
        ||| (m.has_fdi && m.fdi_off != 0 && (m.fdi_off < 0 || m.fdi_size < 0
            || region_wire_unsorted(fp)))
        ||| (m.has_phi && m.phi_off != -1 && dec_phi_map(pp) is Some && linked_fails(
            dec_phi_map(pp)->Some_0.0,
            m.blob,
            v,
        ))
    }))
}

/// The error kind a refused load reports, tied to its cause.
pub open spec fn load_err_kind(
    data: Seq<u8>,
    key: Seq<char>,
    info: crate::pakinfo::PakInfoV,
    e: PakError,
) -> bool {
    &&& (info.index_is_frozen ==> e == PakError::InvalidData)
    &&& (e == PakError::InvalidInput ==> info.encrypted_index && match base64_of(key) {
        Some(b) => b.len() != 32,
        None => false,
    })
    &&& (e == PakError::Corrupt(PakRegion::PakIndex) ==> main_check_failed(data, key, info))
    &&& (e == PakError::Corrupt(PakRegion::PathHashIndex) ==> phi_check_failed(data, key, info))
    &&& (e == PakError::Corrupt(PakRegion::FullDirectoryIndex) ==> fdi_check_failed(
        data,
        key,
        info,
    ))
    &&& (e == PakError::InvalidData ==> load_invalid_data_cause(data, key, info))
    &&& (!info.index_is_frozen && info.encrypted_index && base64_of(key) is None ==> e
        == PakError::Other)
    &&& (!info.index_is_frozen && info.encrypted_index && (match base64_of(key) {
        Some(b) => b.len() != 32,
        None => false,
    }) ==> e == PakError::InvalidInput)
}

/// Compares two SHA1 digests.
pub fn hash_eq(a: &[u8; 20], b: &[u8; 20]) -> (r: bool)
    ensures
        r == (a@ == b@),
{
    let mut i: usize = 0;
    while i < 20
        invariant
            i <= 20,
            forall|j: int| 0 <= j < i as int ==> a@[j] == b@[j],
        decreases 20 - i,
    {
        if a[i] != b[i] {
            return false;
        }
        i = i + 1;
    }
    proof {
        assert(a@ =~= b@);
    }
    true
}

/// Reads a region's plaintext: bounds-checked, decrypted when the index is
/// encrypted.
fn region_bytes(data: &Vec<u8>, enc: bool, keyb: &Vec<u8>, off: u64, size: u64) -> (r: Result<
    Vec<u8>,
    PakError,
>)
    requires
        enc ==> keyb@.len() == 32,
    ensures
        match r {
            Ok(v) => off + (if enc {
                size as int
            } else {
                0
            }) <= data@.len() && (enc ==> size % 16 == 0) && v@ == region_plain(
                data@,
                enc,
                keyb@,
                off as int,
                size as int,
            ),
            Err(e) => (e == PakError::Eof && !(if enc {
                off <= data@.len() && size <= data@.len() - off
            } else {
                off <= data@.len()
            })) || (e == PakError::Other && enc && off <= data@.len() && size <= data@.len() - off
                && size % 16 != 0),
        },
{
    if enc {
        if off > data.len() as u64 || size > data.len() as u64 - off {
            return Err(PakError::Eof);
        }
        if size % 16 != 0 {
            return Err(PakError::Other);
        }
        let cipher = vstd::slice::slice_subrange(
            data.as_slice(),
            off as usize,
            (off + size) as usize,
        );
        Ok(aes256_ecb_decrypt(keyb.as_slice(), cipher))
    } else {
        if off > data.len() as u64 {
            return Err(PakError::Eof);
        }
        let s = vstd::slice::slice_subrange(data.as_slice(), off as usize, data.len());
        let v = vstd::slice::slice_to_vec(s);
        proof {
            assert(v@ =~= data@.skip(off as int));
        }
        Ok(v)
    }
}

/// Verifies one chained boundary: the consumed count, padded to the AES block
/// when decrypting, must equal the recorded size, and the SHA1 of the counted
/// plaintext bytes must equal the recorded hash.
fn verify_region(
    plain: &Vec<u8>,
    consumed: usize,
    size: u64,
    expected: &[u8; 20],
    enc: bool,
    label: PakRegion,
) -> (r: Result<(), PakError>)
    ensures
        match r {
            Ok(()) => padded_len(consumed as int, size as int, enc) == size as int
                && size <= plain@.len() && sha1_of(plain@.take(size as int)) == expected@,
            Err(e) => e == PakError::Corrupt(label) && (padded_len(
                consumed as int,
                size as int,
                enc,
            ) != size as int || size > plain@.len() || sha1_of(plain@.take(size as int))
                != expected@),
        },
{
    let cons64 = consumed as u64;
    let padded: u64 = if enc && cons64 <= size && size - cons64 < 16 {
        size
    } else {
        cons64
    };
    if padded != size {
        return Err(PakError::Corrupt(label));
    }
    if size > plain.len() as u64 {
        return Err(PakError::Corrupt(label));
    }
    let prefix = vstd::slice::slice_subrange(plain.as_slice(), 0, size as usize);
    let digest = sha1_digest(prefix);
    proof {
        assert(prefix@ =~= plain@.take(size as int));
    }
    if hash_eq(&digest, expected) {
        Ok(())
    } else {
        Err(PakError::Corrupt(label))
    }
}

impl PakFile {
    pub fn info(&self) -> (r: &PakInfo)
        ensures
            r == &self.info,
    {
        &self.info
    }

    pub fn index(&self) -> (r: &PakIndex)
        ensures
            r == &self.index,
    {
        &self.index
    }

    /// Probes every version, newest first, with no key.
    pub fn load_any(data: &Vec<u8>) -> (r: Result<PakFile, PakError>)
        ensures
            match r {
                Ok(pak) => probe_found(data@, pak.info@) && index_loaded(
                    data@,
                    ""@,
                    pak.info@,
                    pak.index,
                ),
                Err(e) => versions_load_err(data@, ""@, versions_newest_first(), e),
            },
    {
        let versions = PakVersion::list();
        let rev = reverse_versions(versions);
        proof {
            lemma_reversed_is_newest_first(rev@);
        }
        Self::load_versions(data, "", &rev)
    }

    /// Probes every version, newest first, decrypting with the base64 key.
    pub fn load_any_with_key(data: &Vec<u8>, key: &str) -> (r: Result<PakFile, PakError>)
        ensures
            match r {
                Ok(pak) => probe_found(data@, pak.info@) && index_loaded(
                    data@,
                    key@,
                    pak.info@,
                    pak.index,
                ),
                Err(e) => versions_load_err(data@, key@, versions_newest_first(), e),
            },
    {
        let versions = PakVersion::list();
        let rev = reverse_versions(versions);
        proof {
            lemma_reversed_is_newest_first(rev@);
        }
        Self::load_versions(data, key, &rev)
    }

    /// Reads a file of one known version, with no key.
    pub fn load_version(data: &Vec<u8>, version: PakVersion) -> (r: Result<PakFile, PakError>)
        ensures
            match r {
                Ok(pak) => probe_found(data@, pak.info@) && pak.info@.version == version
                    && index_loaded(data@, ""@, pak.info@, pak.index),
                Err(e) => ({
                    let len = info_len(version);
                    ||| (probe_recoverable_miss(data@, version) && e == PakError::InvalidData)
                    ||| (len < data@.len() && dec_info(data@.skip(data@.len() - len), version)
                        is None && dec_info_err(data@.skip(data@.len() - len), version) == e)
                    ||| (len < data@.len() && dec_info(data@.skip(data@.len() - len), version)
                        is Some && load_fails(
                        data@,
                        ""@,
                        dec_info(data@.skip(data@.len() - len), version)->Some_0.0,
                    ) && load_err_kind(
                        data@,
                        ""@,
                        dec_info(data@.skip(data@.len() - len), version)->Some_0.0,
                        e,
                    ))
                }),
            },
    {
        let mut versions: Vec<PakVersion> = Vec::new();
        versions.push(version);
        let r = Self::load_versions(data, "", &versions);
        proof {
            match &r {
                Ok(pak) => {
                    let i = choose|i: int|
                        0 <= i < versions@.len() && versions@[i] == pak.info@.version && (forall|
                            j: int,
                        |
                            0 <= j < i ==> probe_recoverable_miss(data@, #[trigger] versions@[j]));
                    assert(i == 0);
                },
                Err(e2) => {
                    let e = *e2;
                    if exists|i: int|
                        #![trigger versions@[i]]
                        0 <= i < versions@.len() && (forall|j: int|
                            0 <= j < i ==> probe_recoverable_miss(
                                data@,
                                #[trigger] versions@[j],
                            )) && ({
                            let len = info_len(versions@[i]);
                            &&& len < data@.len()
                            &&& dec_info(data@.skip(data@.len() - len), versions@[i]) is None
                            &&& dec_info_err(data@.skip(data@.len() - len), versions@[i]) == e
                            &&& e != PakError::InvalidInput
                        }) {
                        let i = choose|i: int|
                            #![trigger versions@[i]]
                            0 <= i < versions@.len() && (forall|j: int|
                                0 <= j < i ==> probe_recoverable_miss(
                                    data@,
                                    #[trigger] versions@[j],
                                )) && ({
                                let len = info_len(versions@[i]);
                                &&& len < data@.len()
                                &&& dec_info(data@.skip(data@.len() - len), versions@[i])
                                    is None
                                &&& dec_info_err(data@.skip(data@.len() - len), versions@[i])
                                    == e
                                &&& e != PakError::InvalidInput
                            });
                        assert(i == 0);
                        assert(versions@[0] == version);
                    } else if exists|i: int|
                        #![trigger versions@[i]]
                        0 <= i < versions@.len() && (forall|j: int|
                            0 <= j < i ==> probe_recoverable_miss(
                                data@,
                                #[trigger] versions@[j],
                            )) && ({
                            let len = info_len(versions@[i]);
                            let parsed = dec_info(
                                data@.skip(data@.len() - len),
                                versions@[i],
                            )->Some_0.0;
                            &&& len < data@.len()
                            &&& dec_info(data@.skip(data@.len() - len), versions@[i]) is Some
                            &&& load_fails(data@, ""@, parsed)
                            &&& load_err_kind(data@, ""@, parsed, e)
                        }) {
                        let i = choose|i: int|
                            #![trigger versions@[i]]
                            0 <= i < versions@.len() && (forall|j: int|
                                0 <= j < i ==> probe_recoverable_miss(
                                    data@,
                                    #[trigger] versions@[j],
                                )) && ({
                                let len = info_len(versions@[i]);
                                let parsed = dec_info(
                                    data@.skip(data@.len() - len),
                                    versions@[i],
                                )->Some_0.0;
                                &&& len < data@.len()
                                &&& dec_info(data@.skip(data@.len() - len), versions@[i])
                                    is Some
                                &&& load_fails(data@, ""@, parsed)
                                &&& load_err_kind(data@, ""@, parsed, e)
                            });
                        assert(i == 0);
                        assert(versions@[0] == version);
                    } else {
                        assert(probe_recoverable_miss(data@, versions@[0]));
                    }
                },
            }
        }
        r
    }

    /// Probes the given versions in order; the first whose trailer parses
    /// wins, and its index is read and verified.
    pub fn load_versions(data: &Vec<u8>, key: &str, versions: &Vec<PakVersion>) -> (r: Result<
        PakFile,
        PakError,
    >)
        ensures
            match r {
                Ok(pak) => probe_found(data@, pak.info@) && (exists|i: int|
                    0 <= i < versions@.len() && versions@[i] == pak.info@.version && (forall|j: int|
                        0 <= j < i ==> probe_recoverable_miss(data@, #[trigger] versions@[j])))
                    && index_loaded(data@, key@, pak.info@, pak.index),
                Err(e) => versions_load_err(data@, key@, versions@, e),
            },
    {
        let info = match Self::de_pakinfo_versions(data, versions) {
            Ok(i) => i,
            Err(e) => {
                proof {
                    crate::pakinfo::lemma_dec_info_err_kinds(
                        data@.skip(0),
                        PakVersion::Initial,
                    );
                }
                return Err(e)
            },
        };
        let index = match Self::load_index(&info, data, key) {
            Ok(x) => x,
            Err(e) => {
                proof {
                    let i = choose|i: int|
                        0 <= i < versions@.len() && versions@[i] == info@.version && (forall|j: int|
                            0 <= j < i ==> probe_recoverable_miss(data@, #[trigger] versions@[j]));
                    assert(info_len(versions@[i]) < data@.len());
                    assert(dec_info(
                        data@.skip(data@.len() - info_len(versions@[i])),
                        versions@[i],
                    ) is Some);
                }
                return Err(e)
            },
        };
        Ok(PakFile { info, index })
    }

    /// Tries each version in order: the trailer of length `L` is parsed at
    /// `EOF - L`. The winner is the first candidate whose trailer parses,
    /// every earlier candidate having missed recoverably (did not fit, or a
    /// magic/raw mismatch). A non-recoverable failure aborts with its kind;
    /// `InvalidData` reports that every candidate missed recoverably.
    pub fn de_pakinfo_versions(data: &Vec<u8>, versions: &Vec<PakVersion>) -> (r: Result<
        PakInfo,
        PakError,
    >)
        ensures
            match r {
                Ok(info) => probe_found(data@, info@) && (exists|i: int|
                    0 <= i < versions@.len() && versions@[i] == info@.version && (forall|j: int|
                        0 <= j < i ==> probe_recoverable_miss(data@, #[trigger] versions@[j]))),
                Err(e) => {
                    if e == PakError::InvalidData {
                        forall|j: int|
                            0 <= j < versions@.len() ==> probe_recoverable_miss(
                                data@,
                                #[trigger] versions@[j],
                            )
                    } else {
                        exists|i: int|
                            0 <= i < versions@.len() && (forall|j: int|
                                0 <= j < i ==> probe_recoverable_miss(
                                    data@,
                                    #[trigger] versions@[j],
                                )) && ({
                                let len = info_len(#[trigger] versions@[i]);
                                &&& len < data@.len()
                                &&& dec_info(data@.skip(data@.len() - len), versions@[i]) is None
                                &&& dec_info_err(data@.skip(data@.len() - len), versions@[i]) == e
                                &&& e != PakError::InvalidInput
                            })
                    }
                },
            },
    {
        let n = data.len();
        let mut i: usize = 0;
        while i < versions.len()
            invariant
                n == data@.len(),
                forall|j: int|
                    0 <= j < i as int ==> probe_recoverable_miss(data@, #[trigger] versions@[j]),
            decreases versions@.len() - i,
        {
            let version = versions[i];
            let probe = PakInfo::new(version);
            let len = probe.ser_de_len();
            if len < n as u64 {
                let start = n - len as usize;
                let tail = vstd::slice::slice_to_vec(
                    vstd::slice::slice_subrange(data.as_slice(), start, n),
                );
                let mut reader = ArchiveReader::new(tail);
                match PakInfo::de(&mut reader, version) {
                    Ok(info) => {
                        proof {
                            assert(info@.version == version);
                            assert(reader.data@.subrange(0, reader.data@.len() as int)
                                =~= reader.data@);
                            assert(reader.data@ =~= data@.skip(
                                data@.len() - info_len(info@.version),
                            ));
                            assert(probe_found(data@, info@));
                        }
                        return Ok(info);
                    },
                    Err(e) => {
                        proof {
                            assert(reader.data@.subrange(0, reader.data@.len() as int)
                                =~= reader.data@);
                            assert(reader.data@ =~= data@.skip(data@.len() - info_len(version)));
                        }
                        if e != PakError::InvalidInput {
                            proof {
                                crate::pakinfo::lemma_dec_info_err_kinds(reader.data@, version);
                                let gi = i as int;
                                assert(versions@[gi] == version);
                                assert(info_len(versions@[gi]) < data@.len());
                                assert(dec_info(
                                    data@.skip(data@.len() - info_len(versions@[gi])),
                                    versions@[gi],
                                ) is None);
                                assert(dec_info_err(
                                    data@.skip(data@.len() - info_len(versions@[gi])),
                                    versions@[gi],
                                ) == e);
                                assert(forall|j: int|
                                    0 <= j < gi ==> probe_recoverable_miss(
                                        data@,
                                        #[trigger] versions@[j],
                                    ));
                            }
                            return Err(e);
                        }
                        proof {
                            assert(probe_recoverable_miss(data@, version));
                        }
                    },
                }
            } else {
                proof {
                    assert(probe_recoverable_miss(data@, version));
                }
            }
            i = i + 1;
        }
        Err(PakError::InvalidData)
    }

    /// Seeks to the index, decrypts it when the trailer says so, parses the
    /// version's index flavor and verifies every chained boundary; on success
    /// the returned index is exactly the parse of the verified plaintexts.
    #[verifier::rlimit(100)]
    #[verifier::spinoff_prover]
    pub fn load_index(info: &PakInfo, data: &Vec<u8>, key: &str) -> (r: Result<PakIndex, PakError>)
        ensures
            match r {
                Ok(idx) => index_loaded(data@, key@, info@, idx),
                Err(e) => load_fails(data@, key@, info@) && load_err_kind(data@, key@, info@, e),
            },
    {
        if info.index_is_frozen {
            return Err(PakError::InvalidData);
        }
        let enc = info.encrypted_index;
        let mut keyb: Vec<u8> = Vec::new();
        if enc {
            keyb = match aes256_base64_key(key) {
                Ok(k) => k,
                Err(e) => { return Err(e) },
            };
        }
        let plain = match region_bytes(data, enc, &keyb, info.index_offset, info.index_size) {
            Ok(p) => p,
            Err(e) => { return Err(e) },
        };
        let ghost pm = region_plain(
            data@,
            enc,
            load_key_of(info@, key@),
            info@.index_offset as int,
            info@.index_size as int,
        );
        proof {
            assert(plain@ == pm);
        }
        let mut reader = ArchiveReader::new(plain);
        proof {
            assert(reader.data@.subrange(0, reader.data@.len() as int) =~= pm);
        }
        if !info.version.at_least(PakVersion::PathHashIndex) {
            let v1 = match PakIndexV1::de(&mut reader, info.version) {
                Ok(x) => x,
                Err(e) => { return Err(e) },
            };
            let consumed = reader.pos;
            match verify_region(
                &reader.data,
                consumed,
                info.index_size,
                &info.hash,
                enc,
                PakRegion::PakIndex,
            ) {
                Ok(()) => (),
                Err(e) => { return Err(e) },
            }
            return Ok(PakIndex::V1(v1));
        }
        let mut x = match PakIndexV2::de(&mut reader, info.version) {
            Ok(x) => x,
            Err(e) => { return Err(e) },
        };
        let consumed = reader.pos;
        match verify_region(
            &reader.data,
            consumed,
            info.index_size,
            &info.hash,
            enc,
            PakRegion::PakIndex,
        ) {
            Ok(()) => (),
            Err(e) => { return Err(e) },
        }
        match Self::load_v2_regions(info, data, key, &keyb, x) {
            Ok(idx) => Ok(idx),
            Err(e) => Err(e),
        }
    }

    /// Reads and verifies the secondary regions of a parsed V2 index, then
    /// materializes the blob-referenced entries.
    #[verifier::rlimit(100)]
    #[verifier::spinoff_prover]
    fn load_v2_regions(
        info: &PakInfo,
        data: &Vec<u8>,
        key: &str,
        keyb: &Vec<u8>,
        x: PakIndexV2,
    ) -> (r: Result<PakIndex, PakError>)
        requires
            !info@.index_is_frozen,
            info@.version.spec_at_least(PakVersion::PathHashIndex),
            load_key_ok(info@, key@),
            info@.encrypted_index ==> keyb@ == load_key_of(info@, key@),
            region_ok(
                data@,
                info@.encrypted_index,
                info@.index_offset as int,
                info@.index_size as int,
            ),
            ({
                let plain = region_plain(
                    data@,
                    info@.encrypted_index,
                    load_key_of(info@, key@),
                    info@.index_offset as int,
                    info@.index_size as int,
                );
                &&& dec_v2_main(plain, info@.version) is Some
                &&& dec_v2_main(plain, info@.version)->Some_0.0 == v2_main_view(x)
                &&& region_checked(
                    plain,
                    dec_v2_main(plain, info@.version)->Some_0.1,
                    info@.index_size as int,
                    info@.hash,
                    info@.encrypted_index,
                )
            }),
            x.path_hash_index@.len() == 0,
            x.pruned_directory_index@.len() == 0,
            x.full_directory_index@.len() == 0,
            x.decoded_pak_entries@.len() == 0,
        ensures
            match r {
                Ok(idx) => index_loaded(data@, key@, info@, idx),
                Err(e) => load_fails(data@, key@, info@) && load_err_kind(data@, key@, info@, e),
            },
    {
        let enc = info.encrypted_index;
        let mut x = x;
        let ghost pm = region_plain(
            data@,
            enc,
            load_key_of(info@, key@),
            info@.index_offset as int,
            info@.index_size as int,
        );
        let ghost m = dec_v2_main(pm, info@.version)->Some_0.0;
        proof {
            assert(m == v2_main_view(x));
        }
        if x.has_path_hash_index && x.path_hash_index_offset != -1 {
            if x.path_hash_index_offset < 0 || x.path_hash_index_size < 0 {
                return Err(PakError::InvalidData);
            }
            let plain2 = match region_bytes(
                data,
                enc,
                &keyb,
                x.path_hash_index_offset as u64,
                x.path_hash_index_size as u64,
            ) {
                Ok(p) => p,
                Err(e) => { return Err(e) },
            };
            let ghost pp = region_plain(
                data@,
                enc,
                load_key_of(info@, key@),
                m.phi_off as int,
                m.phi_size as int,
            );
            proof {
                assert(plain2@ == pp);
            }
            let mut r2 = ArchiveReader::new(plain2);
            proof {
                assert(r2.data@.subrange(0, r2.data@.len() as int) =~= pp);
            }
            match x.de_phi_region(&mut r2) {
                Ok(()) => (),
                Err(e) => { return Err(e) },
            }
            let expected = x.path_hash_index_hash;
            match verify_region(
                &r2.data,
                r2.pos,
                x.path_hash_index_size as u64,
                &expected,
                enc,
                PakRegion::PathHashIndex,
            ) {
                Ok(()) => (),
                Err(e) => { return Err(e) },
            }
        }
        if x.has_full_directory_index && x.full_directory_index_offset != 0 {
            if x.full_directory_index_offset < 0 || x.full_directory_index_size < 0 {
                return Err(PakError::InvalidData);
            }
            let plain3 = match region_bytes(
                data,
                enc,
                &keyb,
                x.full_directory_index_offset as u64,
                x.full_directory_index_size as u64,
            ) {
                Ok(p) => p,
                Err(e) => { return Err(e) },
            };
            let ghost fp = region_plain(
                data@,
                enc,
                load_key_of(info@, key@),
                m.fdi_off as int,
                m.fdi_size as int,
            );
            proof {
                assert(plain3@ == fp);
            }
            let mut r3 = ArchiveReader::new(plain3);
            proof {
                assert(r3.data@.subrange(0, r3.data@.len() as int) =~= fp);
            }
            match x.de_fdi_region(&mut r3) {
                Ok(()) => (),
                Err(e) => { return Err(e) },
            }
            let expected = x.full_directory_index_hash;
            match verify_region(
                &r3.data,
                r3.pos,
                x.full_directory_index_size as u64,
                &expected,
                enc,
                PakRegion::FullDirectoryIndex,
            ) {
                Ok(()) => (),
                Err(e) => { return Err(e) },
            }
        }
        match x.decode_linked(info.version) {
            Ok(()) => (),
            Err(e) => {
                proof {
                    let locs = crate::pakindexv2::offset_locs(x.path_hash_index@);
                    let j = choose|j: int|
                        0 <= j < locs.len() && ({
                            let o = #[trigger] locs[j];
                            o > x.encoded_pak_entries@.len() || crate::pakindexv2::dec_compact(
                                x.encoded_pak_entries@.skip(o as int),
                                info@.version,
                            ) is None
                        });
                    crate::pakindexv2::lemma_offset_locs_member(x.path_hash_index@, j);
                    let k = choose|k: int|
                        0 <= k < x.path_hash_index@.len() && (
                        #[trigger] x.path_hash_index@[k]).1.spec_get()
                            == crate::pakindexv2::PakEntryLocation::Offset(locs[j]);
                    assert(phi_view(x.path_hash_index@)[k].1 == x.path_hash_index@[k].1.spec_raw());
                }
                return Err(e)
            },
        }
        Ok(PakIndex::V2(x))
    }
}

/// The trailer of `info`'s version parses exactly at the end of the file.
pub open spec fn probe_found(data: Seq<u8>, info: crate::pakinfo::PakInfoV) -> bool {
    let len = info_len(info.version);
    &&& len < data.len()
    &&& dec_info(data.skip(data.len() - len), info.version) == Some((info, len))
}

/// A candidate the probe may step over: its trailer does not fit the file,
/// or fails to parse with the one recoverable kind, a magic or raw-version
/// mismatch.
pub open spec fn probe_recoverable_miss(data: Seq<u8>, v: PakVersion) -> bool {
    let len = info_len(v);
    ||| len >= data.len()
    ||| (dec_info(data.skip(data.len() - len), v) is None && dec_info_err(
        data.skip(data.len() - len),
        v,
    ) == PakError::InvalidInput)
}


/// Why probing-and-loading a version list fails, and with which kind: every
/// candidate missed recoverably and exhaustion reports `InvalidData`; or the
/// first failing candidate failed fatally with its parse kind; or the winner
/// parsed and its index refused to load, the kind tied to the cause.
pub open spec fn versions_load_err(
    data: Seq<u8>,
    key: Seq<char>,
    versions: Seq<PakVersion>,
    e: PakError,
) -> bool {
    ||| ((forall|j: int|
        0 <= j < versions.len() ==> probe_recoverable_miss(data, #[trigger] versions[j])) && e
        == PakError::InvalidData)
    ||| (exists|i: int|
        #![trigger versions[i]]
        0 <= i < versions.len() && (forall|j: int|
            0 <= j < i ==> probe_recoverable_miss(data, #[trigger] versions[j])) && ({
            let len = info_len(versions[i]);
            &&& len < data.len()
            &&& dec_info(data.skip(data.len() - len), versions[i]) is None
            &&& dec_info_err(data.skip(data.len() - len), versions[i]) == e
            &&& e != PakError::InvalidInput
        }))
    ||| (exists|i: int|
        #![trigger versions[i]]
        0 <= i < versions.len() && (forall|j: int|
            0 <= j < i ==> probe_recoverable_miss(data, #[trigger] versions[j])) && ({
            let len = info_len(versions[i]);
            let parsed = dec_info(data.skip(data.len() - len), versions[i])->Some_0.0;
            &&& len < data.len()
            &&& dec_info(data.skip(data.len() - len), versions[i]) is Some
            &&& load_fails(data, key, parsed)
            &&& load_err_kind(data, key, parsed, e)
        }))
}

/// Every version, newest first: the order the probe tries.
pub open spec fn versions_newest_first() -> Seq<PakVersion> {
    seq![
        PakVersion::Fnv64BugFix,
        PakVersion::PathHashIndex,
        PakVersion::FrozenIndex,
        PakVersion::FNameBasedCompressionMethod,
        PakVersion::FNameBasedCompressionMethod422,
        PakVersion::EncryptionKeyGuid,
        PakVersion::DeleteRecords,
        PakVersion::RelativeChunkOffsets,
        PakVersion::IndexEncryption,
        PakVersion::CompressionEncryption,
        PakVersion::NoTimestamps,
        PakVersion::Initial,
    ]
}

/// A list whose element `i` has emission rank `11 - i` is the newest-first
/// list itself.
proof fn lemma_reversed_is_newest_first(vs: Seq<PakVersion>)
    requires
        vs.len() == 12,
        forall|i: int| 0 <= i < 12 ==> (#[trigger] vs[i]).ord() == 11 - i,
    ensures
        vs == versions_newest_first(),
{
    let w = versions_newest_first();
    assert forall|i: int| 0 <= i < 12 implies vs[i] == w[i] by {
        assert(w[i].ord() == 11 - i);
        PakVersion::lemma_ord_injective(vs[i], w[i]);
    }
    assert(vs =~= w);
}

/// The versions in the opposite order.
fn reverse_versions(versions: Vec<PakVersion>) -> (r: Vec<PakVersion>)
    ensures
        r@.len() == versions@.len(),
        forall|i: int|
            0 <= i < r@.len() ==> r@[i] == versions@[versions@.len() - 1 - i],
{
    let mut r: Vec<PakVersion> = Vec::new();
    let mut i: usize = versions.len();
    while i > 0
        invariant
            i <= versions@.len(),
            r@.len() == versions@.len() - i,
            forall|j: int|
                0 <= j < r@.len() ==> r@[j] == versions@[versions@.len() - 1 - j],
        decreases i,
    {
        i = i - 1;
        r.push(versions[i]);
    }
    r
}

} // verus!
