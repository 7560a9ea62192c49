//! Pack index lookups and pack object-header decoding on constructed
//! files.

use git_stats::errors::GitError;
use git_stats::packfiles::{BytesFile, Idx, Pack};

fn be32(out: &mut Vec<u8>, v: u32) {
    out.extend_from_slice(&v.to_be_bytes());
}

fn be64(out: &mut Vec<u8>, v: u64) {
    out.extend_from_slice(&v.to_be_bytes());
}

fn hash_with_first(first: u8, fill: u8) -> git_stats::packfiles::Hash {
    let mut bytes = [fill; 20];
    bytes[0] = first;
    git_stats::packfiles::Hash(bytes)
}

/// A version-2 index over three hashes; the middle one uses the
/// 64-bit overflow table.
fn sample_idx() -> (Vec<u8>, [git_stats::packfiles::Hash; 3], [u64; 3]) {
    let h0 = hash_with_first(0x10, 1);
    let h1 = hash_with_first(0x10, 2);
    let h2 = hash_with_first(0xab, 3);
    let offsets: [u64; 3] = [100, 0x1_0000_0000, 300];
    let mut data: Vec<u8> = Vec::new();
    data.extend_from_slice(&[0xff, 0x74, 0x4f, 0x63]);
    be32(&mut data, 2);
    for b in 0u32..=255u32 {
        let count = if b < 0x10 {
            0
        } else if b < 0xab {
            2
        } else {
            3
        };
        be32(&mut data, count);
    }
    for h in [h0, h1, h2] {
        data.extend_from_slice(&h.0);
    }
    for _ in 0..3 {
        be32(&mut data, 0);
    }
    be32(&mut data, 100);
    be32(&mut data, 0x8000_0000);
    be32(&mut data, 300);
    be64(&mut data, 0x1_0000_0000);
    (data, [h0, h1, h2], offsets)
}

#[test]
fn bytes_file_reads_big_endian() {
    let mut f = BytesFile::from_data(vec![0x12, 0x34, 0x56, 0x78, 0, 0, 0, 0, 0, 0, 0, 9]);
    assert_eq!(f.read_u32().unwrap(), 0x12345678);
    assert_eq!(f.read_u64().unwrap(), 9);
    assert_eq!(f.read_u32().err(), Some(GitError::IoError));
}

#[test]
fn hash_renders_as_hex() {
    let mut bytes = [0u8; 20];
    bytes[0] = 0x53;
    bytes[1] = 0x71;
    bytes[19] = 0x0f;
    let h = git_stats::packfiles::Hash(bytes);
    assert_eq!(h.to_string(), "537100000000000000000000000000000000000f");
    assert_eq!(h.to_string().len(), 40);
}

#[test]
fn hash_compare_orders_lexicographically() {
    let a = hash_with_first(0x10, 1);
    let b = hash_with_first(0x10, 2);
    let c = hash_with_first(0xab, 3);
    assert!(a.compare(&b) < 0);
    assert!(b.compare(&a) > 0);
    assert!(b.compare(&c) < 0);
    assert_eq!(a.compare(&a), 0);
}

#[test]
fn idx_finds_every_present_hash() {
    let (data, hashes, offsets) = sample_idx();
    let mut idx = Idx::from_bytes(data).unwrap();
    assert_eq!(idx.version, 2);
    for (i, h) in hashes.iter().enumerate() {
        let found = idx.get_object_index(*h).unwrap();
        assert_eq!(found, Some(i as u32));
        let off = idx.get_pack_offset_at_index(i as u32).unwrap();
        assert_eq!(off, offsets[i]);
    }
}

#[test]
fn idx_reports_absent_hashes() {
    let (data, _hashes, _offsets) = sample_idx();
    let mut idx = Idx::from_bytes(data).unwrap();
    // Just below the minimum of the populated bucket.
    assert_eq!(idx.get_object_index(hash_with_first(0x10, 0)).unwrap(), None);
    // Just above the maximum of the populated bucket.
    assert_eq!(idx.get_object_index(hash_with_first(0x10, 9)).unwrap(), None);
    // An untouched bucket.
    assert_eq!(idx.get_object_index(hash_with_first(0x55, 5)).unwrap(), None);
}

#[test]
fn idx_version_three_is_unsupported() {
    let (mut data, _hashes, _offsets) = sample_idx();
    data[7] = 3;
    assert_eq!(Idx::from_bytes(data).err(), Some(GitError::UnsupportedIndexVersion));
}

#[test]
fn idx_bad_magic_is_rejected() {
    let (mut data, _hashes, _offsets) = sample_idx();
    data[0] = 0x00;
    assert_eq!(Idx::from_bytes(data).err(), Some(GitError::CorruptObject));
}

#[test]
fn pack_offset_resolution_goes_through_index() {
    let (data, hashes, offsets) = sample_idx();
    let mut idx = Idx::from_bytes(data).unwrap();
    let mut pack = Pack::from_parts("pack-test".to_string(), BytesFile::from_data(Vec::new()));
    assert_eq!(pack.get_pack_offset(&mut idx, hashes[1]).unwrap(), Some(offsets[1]));
    assert_eq!(pack.get_pack_offset(&mut idx, hash_with_first(0x77, 7)).unwrap(), None);
}

#[test]
fn variant_byte_splits_value_and_flag() {
    let mut pack = Pack::from_parts("p".to_string(), BytesFile::from_data(vec![0x85, 0x01]));
    assert_eq!(pack.read_variant_byte().unwrap(), (5, true));
    assert_eq!(pack.read_variant_byte().unwrap(), (1, false));
    assert_eq!(pack.read_variant_byte().err(), Some(GitError::IoError));
}

#[test]
fn size_encoding_single_byte() {
    let mut pack = Pack::from_parts("p".to_string(), BytesFile::from_data(vec![0x05]));
    assert_eq!(pack.read_size_encoding().unwrap(), 5);
}

#[test]
fn size_encoding_with_continuation() {
    let mut pack = Pack::from_parts("p".to_string(), BytesFile::from_data(vec![0x85, 0x01]));
    assert_eq!(pack.read_size_encoding().unwrap(), 133);
}

#[test]
fn size_encoding_hits_end_of_data() {
    let mut pack = Pack::from_parts("p".to_string(), BytesFile::from_data(vec![0x85]));
    assert_eq!(pack.read_size_encoding().err(), Some(GitError::IoError));
}

#[test]
fn type_and_size_decode_object_header() {
    // Type 3 (blob), size 5: one byte.
    let mut pack = Pack::from_parts("p".to_string(), BytesFile::from_data(vec![0x35]));
    assert_eq!(pack.read_type_and_size(0).unwrap(), (3, 5));
    // Type 3, size 21: low four bits 5, then a continuation group 1.
    let mut pack = Pack::from_parts("p".to_string(), BytesFile::from_data(vec![0xb5, 0x01]));
    assert_eq!(pack.read_type_and_size(0).unwrap(), (3, 21));
}

#[test]
fn pack_object_payload_is_inflated() {
    let payload = b"hello pack";
    let mut data = vec![0x3a]; // type 3 (blob), size 10
    data.extend_from_slice(&miniz_oxide::deflate::compress_to_vec_zlib(payload, 6));
    let mut pack = Pack::from_parts("p".to_string(), BytesFile::from_data(data));
    assert_eq!(pack.read_pack_object(0).unwrap(), payload.to_vec());
}

#[test]
fn delta_entries_are_recognized_but_unresolved() {
    // Type 6 (offset delta), size 1.
    let mut pack = Pack::from_parts("p".to_string(), BytesFile::from_data(vec![0x61, 0x00]));
    assert_eq!(pack.read_pack_object(0).err(), Some(GitError::UnresolvedDelta));
}

#[test]
fn encoding_bits_are_seven() {
    assert_eq!(Pack::get_encoding_bits(), 7);
}

#[test]
fn pack_filename_stem_is_extracted() {
    let stem = format!("pack-{}", "0123456789abcdef0123".repeat(2));
    let path = format!(".git/objects/pack/{}.idx", stem);
    assert_eq!(Pack::parse_pack_filename(&path), Some(stem.clone()));
    let path = format!(".git/objects/pack/{}.pack", stem);
    assert_eq!(Pack::parse_pack_filename(&path), Some(stem));
}

#[test]
fn pack_filename_without_stem_is_refused() {
    assert_eq!(Pack::parse_pack_filename("objects/pack/other.pack"), None);
    // Too few hex digits.
    assert_eq!(Pack::parse_pack_filename("pack-0123.idx"), None);
}

#[test]
fn idx_validate_accepts_the_sample_layout() {
    let (data, _hashes, _offsets) = sample_idx();
    assert!(git_stats::packfiles::idx_validate(&data));
}

#[test]
fn idx_validate_rejects_broken_layouts() {
    // Truncated below the fixed tables.
    assert!(!git_stats::packfiles::idx_validate(&vec![0u8; 100]));
    // A decreasing fan-out table.
    let (mut data, _hashes, _offsets) = sample_idx();
    data[8 + 4 * 0x10 + 3] = 9;
    assert!(!git_stats::packfiles::idx_validate(&data));
    // Hashes out of order.
    let (mut data, _hashes, _offsets) = sample_idx();
    data[1032] = 0xab;
    assert!(!git_stats::packfiles::idx_validate(&data));
}
