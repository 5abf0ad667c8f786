//! Whole-file tests: building, probing, reading back, integrity and the
//! encrypted index envelope.

use aes::Aes256;
use block_modes::block_padding::NoPadding;
use block_modes::{BlockMode, Ecb};
use sha1::{Digest, Sha1};

use pakcodec::archive::{ArchiveReader, ArchiveWriter};
use pakcodec::pakindexv1::PakIndexV1;
use pakcodec::pakbuilder::PakFileBuilder;
use pakcodec::pakentry::PakEntry;
use pakcodec::pakfile::PakFile;
use pakcodec::pakindex::PakIndex;
use pakcodec::pakindexv2::{PakEntryLocation, PakIndexV2};
use pakcodec::pakinfo::PakInfo;
use pakcodec::{PakError, PakRegion, PakVersion};

fn build_v10_single() -> (Vec<u8>, pakcodec::pakfile::PakFile) {
    let mut w = ArchiveWriter::new();
    let mut b = PakFileBuilder::new(PakVersion::PathHashIndex);
    let mut aw = b.add(String::from("dir/a"));
    aw.write_all(&[1, 2, 3]).unwrap();
    b.finish_asset(&mut w, aw).unwrap();
    let pak = b.finalize(&mut w).unwrap();
    assert_eq!(pak.info.index_offset, 3);
    (w.data, pak)
}

#[test]
fn build_and_read_back_v10() {
    let (data, built) = build_v10_single();
    // the builder's own index holds the materialized entry, hash included
    match &built.index {
        PakIndex::V2(v2) => {
            let hashed = v2.hashed_entries().unwrap();
            assert_eq!(hashed.len(), 1);
            let entry = &hashed[0].1;
            assert_eq!(entry.size, 3);
            let want: [u8; 20] = Sha1::digest(&[1u8, 2, 3]).into();
            assert_eq!(entry.hash, want);
        },
        PakIndex::V1(_) => panic!("expected a V2 index"),
    }
    // reading the bytes back reproduces the structure; the compact blob
    // stores no per-entry hash
    let pak = PakFile::load_version(&data, PakVersion::PathHashIndex).expect("pak loads");
    assert_eq!(pak.info.index_offset, 3);
    match &pak.index {
        PakIndex::V2(v2) => {
            let hashed = v2.hashed_entries().unwrap();
            assert_eq!(hashed.len(), 1);
            let entry = &hashed[0].1;
            assert_eq!(entry.size, 3);
            assert_eq!(entry.uncompressed_size, 3);
            let full = v2.full_entries();
            assert_eq!(full.len(), 1);
            assert_eq!(full[0].0, "dir");
            assert_eq!(full[0].1, "a");
            assert_eq!(full[0].2, PakEntryLocation::Offset(0));
        },
        PakIndex::V1(_) => panic!("expected a V2 index"),
    }
}

#[test]
fn probe_finds_any_version() {
    let (data, _) = build_v10_single();
    let pak = PakFile::load_any(&data).expect("probe finds the version");
    assert_eq!(pak.info.version, PakVersion::PathHashIndex);
}

#[test]
fn probe_finds_oldest_version() {
    let mut w = ArchiveWriter::new();
    let mut b = PakFileBuilder::new(PakVersion::Initial);
    let mut aw = b.add(String::from("x"));
    aw.write_all(&[9, 9]).unwrap();
    b.finish_asset(&mut w, aw).unwrap();
    b.finalize(&mut w).unwrap();
    let pak = PakFile::load_any(&w.data).expect("probe reaches the oldest version");
    assert_eq!(pak.info.version, PakVersion::Initial);
    match &pak.index {
        PakIndex::V1(v1) => {
            assert!(v1.find("x").is_some());
            assert!(v1.find("y").is_none());
        },
        PakIndex::V2(_) => panic!("expected a V1 index"),
    }
}

#[test]
fn corrupt_index_byte_is_labeled_pak_index() {
    let (mut data, _) = build_v10_single();
    let off = 3 + 7;
    data[off] ^= 0xff;
    let e = match PakFile::load_version(&data, PakVersion::PathHashIndex) {
        Err(e) => e,
        Ok(_) => panic!("corrupted pak must not load"),
    };
    assert_eq!(e, PakError::Corrupt(PakRegion::PakIndex));
}

fn key_bytes() -> [u8; 32] {
    let mut k = [0u8; 32];
    for i in 0..32 {
        k[i] = (i as u8).wrapping_mul(7).wrapping_add(3);
    }
    k
}

fn encrypt_index_of_v7_pak() -> (Vec<u8>, String) {
    // build a V1 pak, then wrap its index region in the AES envelope
    let mut w = ArchiveWriter::new();
    let mut b = PakFileBuilder::new(PakVersion::EncryptionKeyGuid);
    let mut aw = b.add(String::from("asset"));
    aw.write_all(&[5, 6, 7, 8]).unwrap();
    b.finish_asset(&mut w, aw).unwrap();
    let pak = b.finalize(&mut w).unwrap();
    let data = w.data;
    let off = pak.info.index_offset as usize;
    let size = pak.info.index_size as usize;
    let mut plain: Vec<u8> = data[off..off + size].to_vec();
    while plain.len() % 16 != 0 {
        plain.push(0);
    }
    let key = key_bytes();
    let cipher = Ecb::<Aes256, NoPadding>::new_from_slices(&key, &[]).unwrap();
    let encrypted = cipher.encrypt_vec(&plain);
    let mut info = PakInfo::new(PakVersion::EncryptionKeyGuid);
    info.index_offset = pak.info.index_offset;
    info.index_size = plain.len() as u64;
    info.hash = Sha1::digest(&plain).into();
    info.encrypted_index = true;
    let mut out = data[..off].to_vec();
    out.extend_from_slice(&encrypted);
    let mut tw = ArchiveWriter::new();
    info.ser(&mut tw).unwrap();
    out.extend_from_slice(&tw.data);
    (out, base64::encode(key))
}

#[test]
fn encrypted_index_round_trips() {
    let (data, key) = encrypt_index_of_v7_pak();
    let pak = PakFile::load_any_with_key(&data, &key).expect("encrypted pak loads");
    assert!(pak.info.encrypted_index);
    match &pak.index {
        PakIndex::V1(v1) => {
            let e = v1.find("asset").expect("entry present");
            assert_eq!(e.size, 4);
        },
        PakIndex::V2(_) => panic!("expected a V1 index"),
    }
}

#[test]
fn encrypted_index_corruption_is_labeled() {
    let (mut data, key) = encrypt_index_of_v7_pak();
    let pak = PakFile::load_any_with_key(&data, &key).unwrap();
    let off = pak.info.index_offset as usize;
    let size = pak.info.index_size as usize;
    data[off + size - 1] ^= 0x01;
    let e = match PakFile::load_any_with_key(&data, &key) {
        Err(e) => e,
        Ok(_) => panic!("corrupted pak must not load"),
    };
    assert_eq!(e, PakError::Corrupt(PakRegion::PakIndex));
}

#[test]
fn wrong_key_size_is_rejected() {
    let (data, _key) = encrypt_index_of_v7_pak();
    let short = base64::encode([1u8; 16]);
    let e = match PakFile::load_any_with_key(&data, &short) {
        Err(e) => e,
        Ok(_) => panic!("a short key must be rejected"),
    };
    assert_eq!(e, PakError::InvalidInput);
}

#[test]
fn fnv_collision_on_second_insert() {
    // "d/x" and "d/X" hash the same lowercased name: the second insert fails
    let version = PakVersion::Fnv64BugFix;
    let mut v2 = PakIndexV2::new();
    let mut e1 = PakEntry::new();
    e1.size = 1;
    e1.uncompressed_size = 1;
    v2.add(String::from("d/x"), e1, version).expect("first name inserts");
    let mut e2 = PakEntry::new();
    e2.size = 2;
    e2.uncompressed_size = 2;
    let err = v2.add(String::from("d/X"), e2, version).unwrap_err();
    assert_eq!(err, PakError::Other);
}

#[test]
fn name_without_directory_is_rejected() {
    let version = PakVersion::PathHashIndex;
    let mut v2 = PakIndexV2::new();
    let e = PakEntry::new();
    let err = v2.add(String::from("noslash"), e, version).unwrap_err();
    assert_eq!(err, PakError::InvalidInput);
}

#[test]
fn seek_backward_is_rejected_and_equal_is_noop() {
    let mut w = ArchiveWriter::new();
    let mut b = PakFileBuilder::new(PakVersion::PathHashIndex);
    b.seek(&mut w, 16).unwrap();
    assert_eq!(w.data.len(), 16);
    assert!(w.data.iter().all(|&x| x == 0));
    // exactly equal: no-op
    b.seek(&mut w, 16).unwrap();
    assert_eq!(w.data.len(), 16);
    // backward: error
    let e = b.seek(&mut w, 8).unwrap_err();
    assert_eq!(e, PakError::InvalidInput);
    assert_eq!(w.data.len(), 16);
    // pad to 4096
    b.pad(&mut w, 4096).unwrap();
    assert_eq!(w.data.len(), 4096);
}

#[test]
fn methods_table_width_separates_the_two_v8_flavors() {
    let mut a = PakInfo::new(PakVersion::FNameBasedCompressionMethod422);
    a.compression_methods.push(String::from("Zlib"));
    let mut wa = ArchiveWriter::new();
    a.ser(&mut wa).unwrap();
    let mut bfile = PakInfo::new(PakVersion::FNameBasedCompressionMethod);
    bfile.compression_methods.push(String::from("Zlib"));
    let mut wb = ArchiveWriter::new();
    bfile.ser(&mut wb).unwrap();
    // 128 versus 160 bytes of method slots
    assert_eq!(wb.data.len() - wa.data.len(), 32);
    // each flavor parses its own bytes and refuses the other's
    let mut file_a = vec![0u8; 8];
    file_a.extend_from_slice(&wa.data);
    let mut file_b = vec![0u8; 8];
    file_b.extend_from_slice(&wb.data);
    let pa = PakFile::de_pakinfo_versions(
        &file_a,
        &vec![PakVersion::FNameBasedCompressionMethod, PakVersion::FNameBasedCompressionMethod422],
    )
    .expect("the 4.22 flavor parses at its own size");
    assert_eq!(pa.version, PakVersion::FNameBasedCompressionMethod422);
    let pb = PakFile::de_pakinfo_versions(
        &file_b,
        &vec![PakVersion::FNameBasedCompressionMethod, PakVersion::FNameBasedCompressionMethod422],
    )
    .expect("the 4.23 flavor parses at its own size");
    assert_eq!(pb.version, PakVersion::FNameBasedCompressionMethod);
}

#[test]
fn import_mode_checks_size_and_hash() {
    let mut w = ArchiveWriter::new();
    let mut b = PakFileBuilder::new(PakVersion::PathHashIndex);
    let mut given = PakEntry::new();
    given.size = 3;
    given.hash = Sha1::digest(&[1u8, 2, 3]).into();
    let mut aw = b.import(String::from("dir/ok"), given);
    aw.write_all(&[1, 2, 3]).unwrap();
    b.finish_asset(&mut w, aw).unwrap();

    let mut bad = PakEntry::new();
    bad.size = 99;
    bad.hash = [0u8; 20];
    let mut aw2 = b.import(String::from("dir/bad"), bad);
    aw2.write_all(&[1, 2, 3]).unwrap();
    let e = b.finish_asset(&mut w, aw2).unwrap_err();
    assert_eq!(e, PakError::InvalidInput);
}

#[test]
fn deleted_marker_is_indexed_without_payload() {
    let mut w = ArchiveWriter::new();
    let mut b = PakFileBuilder::new(PakVersion::DeleteRecords);
    b.deleted("gone").unwrap();
    let pak = b.finalize(&mut w).unwrap();
    match &pak.index {
        PakIndex::V1(v1) => {
            let e = v1.find("gone").expect("marker present");
            assert!(e.is_deleted());
            assert_eq!(e.size, 0);
        },
        PakIndex::V2(_) => panic!("expected a V1 index"),
    }
}

#[test]
fn encrypted_payload_round_trips_through_aes() {
    // the builder's payload envelope: zero-padded ECB; decrypting what was
    // written gives back the padded plaintext
    let mut w = ArchiveWriter::new();
    let mut b = PakFileBuilder::new(PakVersion::PathHashIndex);
    b.set_key(key_bytes().to_vec()).unwrap();
    let mut aw = b.add(String::from("dir/enc"));
    aw.write_all(&[42u8; 20]).unwrap();
    b.finish_asset(&mut w, aw).unwrap();
    assert_eq!(w.data.len(), 32);
    let cipher = Ecb::<Aes256, NoPadding>::new_from_slices(&key_bytes(), &[]).unwrap();
    let plain = cipher.decrypt_vec(&w.data).unwrap();
    let mut want = vec![42u8; 20];
    want.extend_from_slice(&[0u8; 12]);
    assert_eq!(plain, want);
}

#[test]
fn v1_index_round_trips_in_order() {
    let version = PakVersion::EncryptionKeyGuid;
    let mut idx = PakIndexV1::new();
    idx.mount_point = String::from("../../../");
    for (name, size) in [("b", 10u64), ("a", 20), ("c", 30)] {
        let mut e = PakEntry::new();
        e.size = size;
        e.uncompressed_size = size;
        idx.add(String::from(name), e);
    }
    let mut w = ArchiveWriter::new();
    idx.ser(&mut w, version).expect("index encodes");
    let mut r = ArchiveReader::new(w.data.clone());
    let back = PakIndexV1::de(&mut r, version).expect("index decodes");
    assert_eq!(back.mount_point, "../../../");
    let names: Vec<String> = back.named_entries().into_iter().map(|p| p.0).collect();
    assert_eq!(names, vec!["b", "a", "c"]);
    assert_eq!(back.entries()[1].size, 20);
    assert!(back.find("a").is_some());
    assert!(back.find("missing").is_none());
}

#[test]
fn corrupt_hash_region_byte_is_labeled_path_hash_index() {
    let (mut data, built) = build_v10_single();
    let phi_off = match &built.index {
        PakIndex::V2(v2) => v2.path_hash_index_offset as usize,
        PakIndex::V1(_) => panic!("expected a V2 index"),
    };
    // flip a byte inside the stored hash key, keeping the region parseable
    data[phi_off + 6] ^= 0x01;
    let e = match PakFile::load_version(&data, PakVersion::PathHashIndex) {
        Err(e) => e,
        Ok(_) => panic!("corrupted region must not load"),
    };
    assert_eq!(e, PakError::Corrupt(PakRegion::PathHashIndex));
}

#[test]
fn v1_find_returns_newest_duplicate() {
    let mut idx = PakIndexV1::new();
    let mut first = PakEntry::new();
    first.size = 1;
    idx.add(String::from("twice"), first);
    let mut second = PakEntry::new();
    second.size = 2;
    idx.add(String::from("twice"), second);
    let found = idx.find("twice").expect("name present");
    assert_eq!(found.size, 2);
}

#[test]
fn unsorted_hash_keys_on_wire_are_rejected() {
    // two entries give the path-hash map two key/value pairs; swapping them
    // on the wire breaks the ascending key order the codec demands on read
    let mut w = ArchiveWriter::new();
    let mut b = PakFileBuilder::new(PakVersion::PathHashIndex);
    for name in ["d/b", "d/a"] {
        let mut aw = b.add(String::from(name));
        aw.write_all(&[1]).unwrap();
        b.finish_asset(&mut w, aw).unwrap();
    }
    let pak = b.finalize(&mut w).unwrap();
    let mut data = w.data;
    let phi_off = match &pak.index {
        PakIndex::V2(v2) => v2.path_hash_index_offset as usize,
        PakIndex::V1(_) => panic!("expected a V2 index"),
    };
    // region layout: u32 count, then two (u64 key, i32 location) pairs
    let a = phi_off + 4;
    let mut first = [0u8; 12];
    first.copy_from_slice(&data[a..a + 12]);
    let mut second = [0u8; 12];
    second.copy_from_slice(&data[a + 12..a + 24]);
    data[a..a + 12].copy_from_slice(&second);
    data[a + 12..a + 24].copy_from_slice(&first);
    let e = match PakFile::load_version(&data, PakVersion::PathHashIndex) {
        Err(e) => e,
        Ok(_) => panic!("out-of-order keys must not load"),
    };
    assert_eq!(e, PakError::InvalidData);
}
