//! The pak file builder: a position-tracking writer, per-entry SHA1 over the
//! emitted payload, optional AES-ECB payload encryption, and a finalize that
//! writes the index and then the trailer.

use vstd::prelude::*;

use crate::archive::{str_fits, ArchiveWriter};
use crate::crypto::{aes_enc_of, aes256_ecb_encrypt, sha1_digest, sha1_of};
use crate::pakentry::{PakEntry, FLAG_DELETED};
use crate::pakindex::PakIndex;
use crate::pakindexv1::{enc_v1, v1_encodable, v1_files_view, PakIndexV1};
use crate::pakindexv2::{enc_fdi_region_if, enc_phi_region_if, enc_v2_main, rehomed_pair_ok,
    PakIndexV2};
use crate::pakinfo::{enc_info, PakInfo};
use crate::{PakError, PakVersion};

verus! {

/// Rounds `v` up to the nearest multiple of `alignment`; zero alignment
/// leaves `v` unchanged.
pub fn align_arbitrary(v: u64, alignment: u64) -> (r: u64)
    requires
        v + alignment <= u64::MAX,
    ensures
        alignment == 0 ==> r == v,
        alignment != 0 ==> v <= r < v + alignment && r % alignment == 0,
{
    if alignment == 0 {
        v
    } else {
        let t = v + alignment - 1;
        let q = t / alignment;
        proof {
            let ti: int = t as int;
            let ai: int = alignment as int;
            vstd::arithmetic::div_mod::lemma_fundamental_div_mod(ti, ai);
            vstd::arithmetic::div_mod::lemma_mod_bound(ti, ai);
            assert(q as int == ti / ai);
            assert(q as int * ai == ti - ti % ai) by (nonlinear_arith)
                requires
                    ti == ai * (ti / ai) + ti % ai,
                    q as int == ti / ai,
            ;
        }
        let r = q * alignment;
        proof {
            vstd::arithmetic::div_mod::lemma_mod_multiples_basic(q as int, alignment as int);
        }
        r
    }
}

/// Accumulates one asset's payload before it is sealed into the archive.
pub struct AssetWriter {
    /// Name under which the entry will be indexed.
    pub name: String,
    /// The entry under construction; offset fixed when the writer was opened.
    pub entry: PakEntry,
    /// Plaintext payload accumulated so far.
    pub data: Vec<u8>,
    /// Whether the recorded size and hash must match the written payload.
    pub import: bool,
}

impl AssetWriter {
    /// Payload bytes accumulated so far.
    pub fn size(&self) -> (r: usize)
        ensures
            r == self.data@.len(),
    {
        self.data.len()
    }

    /// Appends payload bytes and accounts them into the uncompressed size.
    pub fn write_all(&mut self, buf: &[u8]) -> (r: Result<(), PakError>)
        ensures
            match r {
                Ok(()) => final(self).data@ == old(self).data@ + buf@
                    && final(self).entry@.uncompressed_size == old(self).entry@.uncompressed_size
                    + buf@.len() && final(self).name@ == old(self).name@ && final(self).import
                    == old(self).import && final(self).entry@.offset == old(self).entry@.offset,
                Err(e) => e == PakError::InvalidInput,
            },
    {
        if buf.len() as u64 > u64::MAX - self.entry.uncompressed_size {
            return Err(PakError::InvalidInput);
        }
        self.data.extend_from_slice(buf);
        self.entry.uncompressed_size = self.entry.uncompressed_size + buf.len() as u64;
        Ok(())
    }
}

/// Builds a pak file: assets stream in, the index and trailer come last.
pub struct PakFileBuilder {
    /// Current absolute offset in the output.
    pub pos: u64,
    /// The trailer under construction.
    pub info: PakInfo,
    /// The flat index accumulated while assets are added.
    pub index: PakIndexV1,
    /// AES-256 key for payload encryption; empty means no encryption.
    pub aes_key: Vec<u8>,
}

/// The bytes an asset's payload occupies on disk: the plaintext itself, or
/// its zero-padded AES-ECB encryption when the builder holds a key.
pub open spec fn payload_out(plain: Seq<u8>, key: Seq<u8>) -> Seq<u8> {
    if key.len() == 32 {
        aes_enc_of(key, plain + Seq::new(((16 - plain.len() % 16) % 16) as nat, |i: int| 0u8))
    } else {
        plain
    }
}

impl PakFileBuilder {
    pub fn new(version: PakVersion) -> (r: Self)
        ensures
            r.pos == 0,
            r.info@.version == version,
            r.index.files@.len() == 0,
            r.aes_key@.len() == 0,
    {
        PakFileBuilder {
            pos: 0,
            info: PakInfo::new(version),
            index: PakIndexV1::new(),
            aes_key: Vec::new(),
        }
    }

    /// Arms payload encryption with an AES-256 key.
    pub fn set_key(&mut self, key: Vec<u8>) -> (r: Result<(), PakError>)
        ensures
            match r {
                Ok(()) => key@.len() == 32 && final(self).aes_key@ == key@ && final(self).pos
                    == old(self).pos && final(self).info == old(self).info && final(self).index
                    == old(self).index,
                Err(e) => e == PakError::InvalidInput && key@.len() != 32 && *final(self)
                    == *old(self),
            },
    {
        if key.len() != 32 {
            return Err(PakError::InvalidInput);
        }
        self.aes_key = key;
        Ok(())
    }

    /// Writes zeros up to `pos`. Exactly-equal is a no-op; a target behind
    /// the current position is refused and nothing is written.
    pub fn seek(&mut self, w: &mut ArchiveWriter, pos: u64) -> (r: Result<(), PakError>)
        ensures
            final(self).info == old(self).info,
            final(self).index == old(self).index,
            final(self).aes_key@ == old(self).aes_key@,
            match r {
                Ok(()) => pos >= old(self).pos && final(self).pos == pos && final(w).data@
                    == old(w).data@ + Seq::new((pos - old(self).pos) as nat, |i: int| 0u8),
                Err(e) => e == PakError::InvalidInput && pos < old(self).pos && final(self).pos
                    == old(self).pos && final(w).data@ == old(w).data@,
            },
    {
        if pos < self.pos {
            return Err(PakError::InvalidInput);
        }
        let ghost b0 = w.data@;
        let ghost start = self.pos;
        while self.pos < pos
            invariant
                start <= self.pos <= pos,
                w.data@ =~= b0 + Seq::new((self.pos - start) as nat, |i: int| 0u8),
                self.info == old(self).info,
                self.index == old(self).index,
                self.aes_key@ == old(self).aes_key@,
            decreases pos - self.pos,
        {
            let chunk: u64 = if pos - self.pos < 4096 {
                pos - self.pos
            } else {
                4096
            };
            let zeros = crate::pakinfo::zero_bytes(chunk as usize);
            w.write_all(zeros.as_slice());
            proof {
                assert(w.data@ =~= b0 + Seq::new(
                    (self.pos + chunk - start) as nat,
                    |i: int| 0u8,
                ));
            }
            self.pos = self.pos + chunk;
        }
        Ok(())
    }

    /// Aligns the position by writing zeros.
    pub fn pad(&mut self, w: &mut ArchiveWriter, alignment: u64) -> (r: Result<(), PakError>)
        requires
            old(self).pos + alignment <= u64::MAX,
        ensures
            final(self).info == old(self).info,
            final(self).index == old(self).index,
            final(self).aes_key@ == old(self).aes_key@,
            match r {
                Ok(()) => final(self).pos >= old(self).pos && (alignment == 0 ==> final(self).pos
                    == old(self).pos) && (alignment != 0 ==> final(self).pos % alignment == 0
                    && final(self).pos < old(self).pos + alignment) && final(w).data@ == old(
                    w,
                ).data@ + Seq::new((final(self).pos - old(self).pos) as nat, |i: int| 0u8),
                Err(e) => false,
            },
    {
        let target = align_arbitrary(self.pos, alignment);
        match self.seek(w, target) {
            Ok(()) => Ok(()),
            Err(e) => {
                proof {
                    assert(false);
                }
                Err(e)
            },
        }
    }

    /// Opens an asset writer that records the payload's size and hash.
    pub fn add(&self, name: String) -> (r: AssetWriter)
        ensures
            r.name@ == name@,
            r.entry@.offset == self.pos,
            r.entry@.uncompressed_size == 0,
            r.data@.len() == 0,
            r.import == false,
    {
        let mut entry = PakEntry::new();
        entry.offset = self.pos;
        AssetWriter { name, entry, data: Vec::new(), import: false }
    }

    /// Opens an asset writer for a caller-provided entry whose recorded size
    /// and hash must match what is written.
    pub fn import(&self, name: String, entry: PakEntry) -> (r: AssetWriter)
        ensures
            r.name@ == name@,
            r.entry@.offset == self.pos,
            r.import == true,
    {
        let mut e = entry;
        e.offset = self.pos;
        AssetWriter { name, entry: e, data: Vec::new(), import: true }
    }

    /// Seals an asset: encrypts the payload when a key is armed, emits it,
    /// records the observed size and SHA1 (or checks them in import mode) and
    /// indexes the entry.
    pub fn finish_asset(&mut self, w: &mut ArchiveWriter, aw: AssetWriter) -> (r: Result<
        (),
        PakError,
    >)
        requires
            old(self).aes_key@.len() == 0 || old(self).aes_key@.len() == 32,
        ensures
            final(self).info == old(self).info,
            final(self).aes_key@ == old(self).aes_key@,
            match r {
                Ok(()) => ({
                    let out = payload_out(aw.data@, old(self).aes_key@);
                    &&& final(w).data@ == old(w).data@ + out
                    &&& final(self).pos == old(self).pos + out.len()
                    &&& final(self).index.files@.len() == old(self).index.files@.len() + 1
                    &&& ({
                        let e = final(self).index.files@.last();
                        &&& e.0@ == aw.name@
                        &&& e.1@.size == out.len()
                        &&& e.1@.hash == sha1_of(out)
                        &&& e.1@.offset == aw.entry@.offset
                        &&& e.1@.uncompressed_size == aw.entry@.uncompressed_size
                    })
                    &&& (aw.import ==> aw.entry@.size == out.len() && aw.entry@.hash == sha1_of(
                        out,
                    ))
                }),
                Err(e) => ({
                    let out = payload_out(aw.data@, old(self).aes_key@);
                    &&& e == PakError::InvalidInput
                    &&& final(self).index == old(self).index
                    &&& final(self).pos == old(self).pos
                    &&& final(w).data@ == old(w).data@
                    &&& (old(self).pos + out.len() > u64::MAX || (aw.import && (aw.entry@.size
                        != out.len() || aw.entry@.hash != sha1_of(out))))
                }),
            },
    {
        let keyed = self.aes_key.len() == 32;
        let out: Vec<u8>;
        if keyed {
            let mut plain = aw.data;
            let rem = plain.len() % 16;
            let pad = (16 - rem) % 16;
            let zeros = crate::pakinfo::zero_bytes(pad);
            let ghost plain0 = plain@;
            plain.append(&mut { zeros });
            proof {
                assert(plain@ =~= plain0 + Seq::new(
                    ((16 - plain0.len() % 16) % 16) as nat,
                    |i: int| 0u8,
                ));
            }
            out = aes256_ecb_encrypt(self.aes_key.as_slice(), plain.as_slice());
        } else {
            out = aw.data;
        }
        if out.len() as u64 > u64::MAX - self.pos {
            return Err(PakError::InvalidInput);
        }
        let digest = sha1_digest(out.as_slice());
        let mut entry = aw.entry;
        if aw.import {
            if entry.size != out.len() as u64 {
                return Err(PakError::InvalidInput);
            }
            if !crate::pakfile::hash_eq(&entry.hash, &digest) {
                return Err(PakError::InvalidInput);
            }
        } else {
            entry.size = out.len() as u64;
            entry.hash = digest;
        }
        w.write_all(out.as_slice());
        self.pos = self.pos + out.len() as u64;
        self.index.add(aw.name, entry);
        Ok(())
    }

    /// Records a delete marker by name; no payload is written.
    pub fn deleted(&mut self, name: &str) -> (r: Result<(), PakError>)
        ensures
            r is Ok,
            final(self).pos == old(self).pos,
            final(self).info == old(self).info,
            final(self).aes_key@ == old(self).aes_key@,
            final(self).index.files@.len() == old(self).index.files@.len() + 1,
            final(self).index.files@.last().0@ == name@,
            final(self).index.files@.last().1@ == (crate::pakentry::PakEntryV {
                offset: old(self).pos,
                size: 0,
                uncompressed_size: 0,
                hash: Seq::new(20, |i: int| 0u8),
                compression_blocks: Seq::<crate::pakentry::PakCompressedBlock>::empty(),
                compression_block_size: 0,
                compression_method_index: 0,
                flags: FLAG_DELETED,
            }),
    {
        let mut entry = PakEntry::new();
        entry.offset = self.pos;
        entry.flags = FLAG_DELETED;
        let owned = copy_str(name);
        self.index.add(owned, entry);
        Ok(())
    }

    /// Writes the index (rehomed into a V2 index from `PathHashIndex` on) and
    /// then the trailer, recording the index region's offset, size and SHA1.
    /// A frozen index is refused with `Other`; a rehoming hash collision
    /// reports `Other` and means two accumulated names share a path hash.
    #[verifier::rlimit(100)]
    #[verifier::spinoff_prover]
    pub fn finalize(self, w: &mut ArchiveWriter) -> (r: Result<PakFile, PakError>)
        requires
            self.pos == old(w).data@.len(),
        ensures
            match r {
                Ok(pak) => ({
                    let v = self.info@.version;
                    &&& pak.info@.version == v
                    &&& pak.info@.index_offset == self.pos
                    &&& pak.info@.magic == self.info@.magic
                    &&& !pak.info@.index_is_frozen
                    &&& !self.info@.index_is_frozen
                    &&& (!v.spec_at_least(PakVersion::PathHashIndex) ==> pak.index is V1 && ({
                        let ib = enc_v1(
                            self.index.mount_point@,
                            v1_files_view(self.index.files@),
                            v,
                        );
                        &&& pak.index->V1_0.mount_point@ == self.index.mount_point@
                        &&& pak.index->V1_0.files@ == self.index.files@
                        &&& final(w).data@ == old(w).data@ + ib + enc_info(pak.info@)
                        &&& pak.info@.index_size == ib.len()
                        &&& pak.info@.hash == sha1_of(ib)
                    }))
                    &&& (v.spec_at_least(PakVersion::PathHashIndex) ==> pak.index is V2 && ({
                        let v2 = pak.index->V2_0;
                        let ib = crate::pakindexv2::enc_v2_main(v2, v);
                        &&& final(w).data@ == old(w).data@ + ib + enc_phi_region_if(v2)
                            + enc_fdi_region_if(v2) + enc_info(pak.info@)
                        &&& pak.info@.index_size == ib.len()
                        &&& pak.info@.hash == sha1_of(ib)
                        &&& v2.mount_point@ == self.index.mount_point@
                        &&& v2.num_entries == self.index.files@.len()
                        &&& v2.has_path_hash_index && v2.has_full_directory_index
                        &&& v2.path_hash_seed == 0
                        &&& v2.path_hash_index@.len() == self.index.files@.len()
                        &&& (forall|j: int|
                            0 <= j < self.index.files@.len()
                                ==> crate::pakindexv2::phi_has_key(
                                v2.path_hash_index@,
                                PakIndexV2::spec_path_hash(
                                    (#[trigger] self.index.files@[j]).0@,
                                    0,
                                    v,
                                ),
                            ))
                        &&& (forall|j: int|
                            0 <= j < self.index.files@.len()
                                ==> crate::pakindexv2::rehomed_pair_ok(
                                v2,
                                (#[trigger] self.index.files@[j]).0@,
                                self.index.files@[j].1@,
                                v,
                            ))
                    }))
                }),
                Err(e) => ({
                    let v = self.info@.version;
                    &&& (e == PakError::InvalidInput || e == PakError::Other)
                    &&& (self.info@.index_is_frozen ==> e == PakError::Other)
                    &&& (!self.info@.index_is_frozen && !v.spec_at_least(
                        PakVersion::PathHashIndex,
                    ) ==> e == PakError::InvalidInput && !(str_fits(self.index.mount_point@)
                        && v1_encodable(v1_files_view(self.index.files@), v)
                        && crate::pakinfo::info_methods_fit(self.info@)))
                    &&& (!self.info@.index_is_frozen && e == PakError::Other
                        ==> v.spec_at_least(PakVersion::PathHashIndex) && (exists|j: int, k: int|
                        0 <= j < k < self.index.files@.len()
                            && PakIndexV2::spec_path_hash(
                            (#[trigger] self.index.files@[j]).0@,
                            0,
                            v,
                        ) == PakIndexV2::spec_path_hash(
                            (#[trigger] self.index.files@[k]).0@,
                            0,
                            v,
                        )))
                }),
            },
    {
        if self.info.index_is_frozen {
            return Err(PakError::Other);
        }
        let version = self.info.version;
        let mut info = self.info;
        info.index_offset = self.pos;
        let ghost b0 = w.data@;
        let index: PakIndex;
        let main_len: u64;
        if version.at_least(PakVersion::PathHashIndex) {
            let mut v2 = PakIndexV2::new();
            v2.mount_point = self.index.mount_point.clone();
            let ghost files0 = self.index.files@;
            let pairs = self.index.take_entries();
            let ghost pairs0 = pairs@;
            proof {
                assert(pairs0 == files0);
            }
            let n = pairs.len();
            let mut i: usize = 0;
            let mut rest = pairs;
            while i < n
                invariant
                    i <= n,
                    n == pairs0.len(),
                    pairs0 == self.index.files@,
                    version == self.info@.version,
                    !self.info@.index_is_frozen,
                    version.spec_at_least(PakVersion::PathHashIndex),
                    crate::pakindexv2::phi_sorted(v2.path_hash_index@),
                    crate::pakindexv2::dir_wf(v2.full_directory_index@),
                    v2.has_path_hash_index,
                    v2.has_full_directory_index,
                    v2.path_hash_seed == 0,
                    v2.mount_point@ == self.index.mount_point@,
                    v2.num_entries == i,
                    v2.path_hash_index@.len() == i as int,
                    rest@.len() == n - i,
                    rest@ == pairs0.skip(i as int),
                    forall|j: int|
                        0 <= j < i as int ==> crate::pakindexv2::phi_has_key(
                            v2.path_hash_index@,
                            PakIndexV2::spec_path_hash((#[trigger] pairs0[j]).0@, 0, version),
                        ),
                    forall|h2: u64|
                        crate::pakindexv2::phi_has_key(v2.path_hash_index@, h2) ==> exists|j: int|
                            0 <= j < i as int && h2 == PakIndexV2::spec_path_hash(
                                (#[trigger] pairs0[j]).0@,
                                0,
                                version,
                            ),
                    forall|j: int|
                        0 <= j < i as int ==> crate::pakindexv2::rehomed_pair_ok(
                            v2,
                            (#[trigger] pairs0[j]).0@,
                            pairs0[j].1@,
                            version,
                        ),
                decreases n - i,
            {
                let (name, entry) = rest.remove(0);
                proof {
                    assert(rest@ =~= pairs0.skip(i as int + 1));
                    assert(pairs0.skip(i as int)[0] == pairs0[i as int]);
                }
                let ghost v2b = v2;
                let ghost entg = entry;
                match v2.add(name, entry, version) {
                    Ok(_) => {
                        proof {
                            let nm = pairs0[i as int].0@;
                            let h = PakIndexV2::spec_path_hash(nm, 0, version);
                            assert(rehomed_pair_ok(v2, nm, pairs0[i as int].1@, version)) by {
                                let loc = crate::pakindexv2::add_loc(v2b, entg, version);
                                assert(crate::pakindexv2::phi_at(
                                    v2.path_hash_index@,
                                    h,
                                ).spec_get() == loc);
                                if crate::pakindexv2::can_encode_spec(entg@, version) {
                                    let o = v2b.encoded_pak_entries@.len() as usize;
                                    assert(v2.decoded_pak_entries@.last() == (o, entg));
                                    assert(crate::pakindexv2::cache_has(
                                        v2.decoded_pak_entries@,
                                        o,
                                        entg@,
                                    ));
                                } else {
                                    let ix = v2b.files@.len() as usize;
                                    assert(v2.files@[ix as int]@ == entg@);
                                }
                            }
                            assert forall|j: int|
                                0 <= j < i as int implies rehomed_pair_ok(
                                v2,
                                (#[trigger] pairs0[j]).0@,
                                pairs0[j].1@,
                                version,
                            ) by {
                                assert(PakIndexV2::spec_path_hash(pairs0[j].0@, 0, version)
                                    != h);
                                crate::pakindexv2::lemma_rehomed_preserved(
                                    v2b,
                                    v2,
                                    pairs0[j].0@,
                                    pairs0[j].1@,
                                    nm,
                                    entg,
                                    version,
                                );
                            }
                        }
                    },
                    Err(e) => {
                        proof {
                            if e == PakError::Other {
                                let h = PakIndexV2::spec_path_hash(
                                    pairs0[i as int].0@,
                                    0,
                                    version,
                                );
                                assert(crate::pakindexv2::add_collides(
                                    v2b,
                                    pairs0[i as int].0@,
                                    version,
                                ));
                                assert(crate::pakindexv2::phi_has_key(v2b.path_hash_index@, h));
                                let j = choose|j: int|
                                    0 <= j < i as int && h == PakIndexV2::spec_path_hash(
                                        (#[trigger] pairs0[j]).0@,
                                        0,
                                        version,
                                    );
                                assert(pairs0 == self.index.files@);
                                assert(PakIndexV2::spec_path_hash(pairs0[j].0@, 0, version)
                                    == PakIndexV2::spec_path_hash(
                                    pairs0[i as int].0@,
                                    0,
                                    version,
                                ));
                            }
                        }
                        return Err(e)
                    },
                }
                i = i + 1;
            }
            let start = w.len();
            match v2.ser(w, version) {
                Ok(()) => (),
                Err(e) => { return Err(e) },
            }
            proof {
                assert(w.data@ == b0 + enc_v2_main(v2, version) + enc_phi_region_if(v2)
                    + enc_fdi_region_if(v2));
                assert forall|j: int|
                    0 <= j < pairs0.len() implies crate::pakindexv2::rehomed_pair_ok(
                    v2,
                    (#[trigger] pairs0[j]).0@,
                    pairs0[j].1@,
                    version,
                ) by {
                }
            }
            proof {
                assert(v2.has_path_hash_index);
                assert(v2.path_hash_index_offset as int == start as int + enc_v2_main(
                    v2,
                    version,
                ).len());
                assert(v2.path_hash_index_offset as int <= w.data@.len());
                assert(w.data@.len() == w.data.len());
            }
            let ml_u64: u64 = v2.path_hash_index_offset as u64 - start as u64;
            let ml: usize = ml_u64 as usize;
            proof {
                assert(enc_v2_main(v2, version).len() == ml as int);
            }
            main_len = ml as u64;
            let region = vstd::slice::slice_subrange(w.data.as_slice(), start, start + ml);
            let digest = sha1_digest(region);
            proof {
                assert(region@ =~= enc_v2_main(v2, version));
            }
            info.index_size = main_len;
            info.hash = digest;
            index = PakIndex::V2(v2);
        } else {
            let start = w.len();
            match self.index.ser(w, version) {
                Ok(()) => (),
                Err(e) => { return Err(e) },
            }
            let ml = w.len() - start;
            main_len = ml as u64;
            let region = vstd::slice::slice_subrange(w.data.as_slice(), start, start + ml);
            let digest = sha1_digest(region);
            proof {
                assert(region@ =~= enc_v1(
                    self.index.mount_point@,
                    v1_files_view(self.index.files@),
                    version,
                ));
            }
            info.index_size = main_len;
            info.hash = digest;
            index = PakIndex::V1(self.index);
        }
        let ghost bmid = w.data@;
        match info.ser(w) {
            Ok(()) => (),
            Err(e) => {
                proof {
                    assert(info@.compression_methods == self.info@.compression_methods);
                    assert(info@.version == self.info@.version);
                    assert(!crate::pakinfo::info_methods_fit(self.info@));
                }
                return Err(e)
            },
        }
        proof {
            assert(w.data@ =~= bmid + enc_info(info@));
        }
        Ok(PakFile { info, index })
    }
}

use crate::pakfile::PakFile;

/// An owned copy of a borrowed string.
fn copy_str(s: &str) -> (r: String)
    ensures
        r@ == s@,
{
    String::from_str(s)
}

} // verus!
