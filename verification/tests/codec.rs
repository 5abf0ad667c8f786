//! Codec-level tests: primitives, the trailer, the full and compact entry
//! forms, and the path hashes.

use pakcodec::archive::{ArchiveLen, ArchiveReader, ArchiveWriter};
use pakcodec::pakentry::{PakCompressedBlock, PakEntry, FLAG_ENCRYPTED};
use pakcodec::pakindexv2::{fnv64, legacy_fnv64, PakIndexV2};
use pakcodec::pakinfo::PakInfo;
use pakcodec::{PakError, PakVersion, PAK_FILE_MAGIC};

fn entry_eq(a: &PakEntry, b: &PakEntry) -> bool {
    a.offset == b.offset && a.size == b.size && a.uncompressed_size == b.uncompressed_size
        && a.hash == b.hash && a.compression_blocks == b.compression_blocks
        && a.compression_block_size == b.compression_block_size
        && a.compression_method_index == b.compression_method_index && a.flags == b.flags
}

fn v7_trailer_bytes() -> Vec<u8> {
    let mut ro: Vec<u8> = Vec::new();
    // encryption key guid: four zero u32s
    for _ in 0..16 {
        ro.push(0);
    }
    // encrypted_index byte
    ro.push(0);
    // magic, little endian
    ro.extend_from_slice(&PAK_FILE_MAGIC.to_le_bytes());
    // raw version 7
    ro.extend_from_slice(&7i32.to_le_bytes());
    // index offset 2048, index size 512
    ro.extend_from_slice(&2048u64.to_le_bytes());
    ro.extend_from_slice(&512u64.to_le_bytes());
    // index hash
    for i in 0..20 {
        ro.push(i as u8);
    }
    ro
}

#[test]
fn v7() {
    let ro = v7_trailer_bytes();
    let mut r = ArchiveReader::new(ro.clone());
    let pakinfo = PakInfo::de(&mut r, PakVersion::EncryptionKeyGuid).expect("deserialize to work");
    assert_eq!(pakinfo.ser_de_len(), ro.len() as u64);
    assert_eq!(pakinfo.version, PakVersion::EncryptionKeyGuid);
    let mut w = ArchiveWriter::new();
    pakinfo.ser(&mut w).expect("serialize to work");
    assert_eq!(w.data, ro);
}

#[test]
fn trailer_round_trip_every_version() {
    for version in PakVersion::list() {
        let mut info = PakInfo::new(version);
        info.index_offset = 12345;
        info.index_size = 678;
        info.hash = [7u8; 20];
        if version.at_least(PakVersion::IndexEncryption) {
            info.encrypted_index = false;
        }
        if version.at_least(PakVersion::EncryptionKeyGuid) {
            info.encryption_key_guid = [1, 2, 3, 4];
        }
        if version.at_least(PakVersion::FNameBasedCompressionMethod422) {
            let slots = if version == PakVersion::FNameBasedCompressionMethod422 { 4 } else { 5 };
            info.compression_methods = vec![String::new(), String::from("Zlib")];
            for _ in 2..(slots + 1) {
                info.compression_methods.push(String::new());
            }
        }
        let mut w = ArchiveWriter::new();
        info.ser(&mut w).expect("trailer encodes");
        assert_eq!(w.data.len() as u64, info.ser_de_len());
        let mut r = ArchiveReader::new(w.data.clone());
        let back = PakInfo::de(&mut r, version).expect("trailer decodes");
        assert_eq!(back.magic, info.magic);
        assert_eq!(back.version, version);
        assert_eq!(back.index_offset, info.index_offset);
        assert_eq!(back.index_size, info.index_size);
        assert_eq!(back.hash, info.hash);
        assert_eq!(back.encrypted_index, info.encrypted_index);
        assert_eq!(back.encryption_key_guid, info.encryption_key_guid);
        if version.at_least(PakVersion::FNameBasedCompressionMethod422) {
            let slots = if version == PakVersion::FNameBasedCompressionMethod422 { 4 } else { 5 };
            assert_eq!(back.compression_methods.len(), slots + 1);
            assert_eq!(back.compression_methods[1], "Zlib");
        } else {
            assert_eq!(back.compression_methods, vec!["", "Zlib", "Gzip", "Oodle"]);
        }
    }
}

#[test]
fn trailer_magic_mismatch_is_invalid_input() {
    let mut ro = v7_trailer_bytes();
    ro[17] ^= 0xff;
    let mut r = ArchiveReader::new(ro);
    let e = PakInfo::de(&mut r, PakVersion::EncryptionKeyGuid).unwrap_err();
    assert_eq!(e, PakError::InvalidInput);
}

#[test]
fn entry_full_round_trip_every_version() {
    for version in PakVersion::list() {
        let mut e = PakEntry::new();
        e.offset = 77;
        e.size = 1000;
        e.uncompressed_size = 1000;
        e.hash = [9u8; 20];
        if version.at_least(PakVersion::CompressionEncryption) {
            e.compression_method_index = 1;
            e.compression_blocks.push(PakCompressedBlock {
                compressed_start: 100,
                compressed_end: 600,
            });
            e.compression_blocks.push(PakCompressedBlock {
                compressed_start: 600,
                compressed_end: 1100,
            });
            e.compression_block_size = 65536;
            e.flags = FLAG_ENCRYPTED;
        }
        let mut w = ArchiveWriter::new();
        e.ser(&mut w, version).expect("entry encodes");
        assert_eq!(w.data.len() as u64, e.ser_de_len(version));
        let mut r = ArchiveReader::new(w.data.clone());
        let back = PakEntry::de(&mut r, version).expect("entry decodes");
        assert!(entry_eq(&e, &back));
        // re-encoding matches the original bytes, ticks field included
        let mut w2 = ArchiveWriter::new();
        back.ser(&mut w2, version).expect("entry re-encodes");
        assert_eq!(w2.data, w.data);
    }
}

#[test]
fn compact_round_trip_three_encrypted_blocks() {
    // method 1, three blocks, ENCRYPTED, block size 65536: all block lengths
    // are written, block 0 starts at the serialized header length, blocks are
    // 16-byte aligned.
    let version = PakVersion::PathHashIndex;
    let mut e = PakEntry::new();
    e.offset = 4096;
    e.uncompressed_size = 200000;
    e.size = 300;
    e.compression_method_index = 1;
    e.compression_block_size = 65536;
    e.flags = FLAG_ENCRYPTED;
    // full-form header length: 24 + 4 (method) + 20 (hash) + 4 + 16 * 3 + 5
    let header = 24 + 4 + 20 + 4 + 16 * 3 + 5;
    let l0 = 100i64;
    let l1 = 50i64;
    let l2 = 75i64;
    let s0 = header;
    let s1 = s0 + (l0 + 15) / 16 * 16;
    let s2 = s1 + (l1 + 15) / 16 * 16;
    e.compression_blocks.push(PakCompressedBlock { compressed_start: s0, compressed_end: s0 + l0 });
    e.compression_blocks.push(PakCompressedBlock { compressed_start: s1, compressed_end: s1 + l1 });
    e.compression_blocks.push(PakCompressedBlock { compressed_start: s2, compressed_end: s2 + l2 });
    assert_eq!(e.ser_de_len(version), header as u64);
    let mut w = ArchiveWriter::new();
    assert!(PakIndexV2::encode_entry(&mut w, &e, version));
    // header u32 + offset u32 + uncompressed u32 + size u32 + 3 block lengths
    assert_eq!(w.data.len(), 4 + 4 + 4 + 4 + 4 * 3);
    let mut r = ArchiveReader::new(w.data.clone());
    let back = PakIndexV2::decode_entry(&mut r, version).expect("compact decodes");
    assert!(entry_eq(&e, &back));
    assert_eq!(back.compression_blocks[0].compressed_start, header);
}

#[test]
fn compact_single_block_elides_lengths() {
    let version = PakVersion::PathHashIndex;
    let header = 24 + 4 + 20 + 4 + 16 + 5;
    let mut e = PakEntry::new();
    e.offset = 10;
    e.uncompressed_size = 4096;
    e.size = 200;
    e.compression_method_index = 1;
    e.compression_block_size = 4096;
    e.compression_blocks.push(PakCompressedBlock {
        compressed_start: header,
        compressed_end: header + 200,
    });
    let mut w = ArchiveWriter::new();
    assert!(PakIndexV2::encode_entry(&mut w, &e, version));
    // no block-length list for a single unencrypted block
    assert_eq!(w.data.len(), 4 + 4 + 4 + 4);
    let mut r = ArchiveReader::new(w.data.clone());
    let back = PakIndexV2::decode_entry(&mut r, version).expect("compact decodes");
    assert!(entry_eq(&e, &back));

    // the ENCRYPTED flag forces the length list
    let mut e2 = e.clone();
    e2.flags = FLAG_ENCRYPTED;
    // block 0 must end 16-aligned relative to size
    e2.compression_blocks[0].compressed_end = header + 200;
    e2.size = 208;
    let mut w2 = ArchiveWriter::new();
    assert!(PakIndexV2::encode_entry(&mut w2, &e2, version));
    assert_eq!(w2.data.len(), 4 + 4 + 4 + 4 + 4);
}

#[test]
fn compact_ineligible_method_falls_back() {
    let version = PakVersion::PathHashIndex;
    let mut e = PakEntry::new();
    e.compression_method_index = 64;
    e.size = 0;
    e.uncompressed_size = 0;
    let mut w = ArchiveWriter::new();
    assert!(!PakIndexV2::encode_entry(&mut w, &e, version));
    assert!(w.data.is_empty());
}

fn reference_fnv(bytes: &[u8], offset: u64, prime: u64, seed: u64) -> u64 {
    let mut h = offset.wrapping_add(seed);
    for &b in bytes {
        h ^= b as u64;
        h = h.wrapping_mul(prime);
    }
    h
}

#[test]
fn fnv64_matches_canonical_reference() {
    for (s, seed) in [("hello/world.txt", 0u64), ("", 7), ("abc", 0xdeadbeef)] {
        let want = reference_fnv(s.as_bytes(), 0xcbf29ce484222325, 0x100000001b3, seed);
        assert_eq!(fnv64(s, seed), want);
    }
}

#[test]
fn legacy_fnv64_matches_swapped_reference() {
    for (s, seed) in [("hello/world.txt", 0u64), ("", 7), ("abc", 0xdeadbeef)] {
        let want = reference_fnv(s.as_bytes(), 0x100000001b3, 0xcbf29ce484222325, seed);
        assert_eq!(legacy_fnv64(s, seed), want);
    }
    // the two variants genuinely differ
    assert_ne!(fnv64("a", 0), legacy_fnv64("a", 0));
}

#[test]
fn string_round_trip() {
    let mut w = ArchiveWriter::new();
    w.ser_str("dir/leaf.bin").unwrap();
    let mut r = ArchiveReader::new(w.data.clone());
    let s = r.de_str().unwrap();
    assert_eq!(s, "dir/leaf.bin");
    assert_eq!(w.data.len(), 4 + 12 + 1);
}

#[test]
fn string_without_terminator_is_error() {
    let mut bad: Vec<u8> = Vec::new();
    bad.extend_from_slice(&2u32.to_le_bytes());
    bad.push(b'a');
    bad.push(b'b');
    let mut r = ArchiveReader::new(bad);
    assert_eq!(r.de_str().unwrap_err(), PakError::Other);
}

#[test]
fn legacy_method_selector_round_trip() {
    // before the FName-based selector, the method index travels as a one-bit
    // legacy flags field
    let version = PakVersion::CompressionEncryption;
    let mut e = PakEntry::new();
    e.offset = 1;
    e.size = 2;
    e.uncompressed_size = 2;
    e.compression_method_index = 3;
    e.compression_blocks.push(PakCompressedBlock { compressed_start: 0, compressed_end: 2 });
    let mut w = ArchiveWriter::new();
    e.ser(&mut w, version).expect("legacy selector encodes");
    // offset of the selector: after the three u64 sizes
    assert_eq!(&w.data[24..28], &4i32.to_le_bytes());
    let mut r = ArchiveReader::new(w.data.clone());
    let back = PakEntry::de(&mut r, version).expect("legacy selector decodes");
    assert!(entry_eq(&e, &back));
    // a method index the legacy flags cannot carry is refused
    let mut e2 = PakEntry::new();
    e2.compression_method_index = 4;
    let mut w2 = ArchiveWriter::new();
    assert_eq!(e2.ser(&mut w2, version).unwrap_err(), PakError::InvalidInput);
}

#[test]
fn truncated_trailer_is_eof() {
    let mut ro = v7_trailer_bytes();
    ro.truncate(30);
    let mut r = ArchiveReader::new(ro);
    assert_eq!(
        PakInfo::de(&mut r, PakVersion::EncryptionKeyGuid).unwrap_err(),
        PakError::Eof
    );
}

#[test]
fn wrong_direction_archive_operations_are_denied() {
    let mut r = ArchiveReader::new(vec![1, 2, 3]);
    assert_eq!(r.write_all(&[4]).unwrap_err(), PakError::PermissionDenied);
    let mut w = ArchiveWriter::new();
    assert_eq!(w.read_exact(1).unwrap_err(), PakError::PermissionDenied);
    let mut l = ArchiveLen::new();
    assert_eq!(l.read_exact(1).unwrap_err(), PakError::PermissionDenied);
    l.write_all(&[1, 2, 3, 4, 5]);
    assert_eq!(l.len(), 5);
}
