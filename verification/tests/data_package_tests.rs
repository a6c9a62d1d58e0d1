use mkwebfont::data_package::{frame_package, unframe_package, zstd_compress, zstd_decompress, DataPackage,
    DataPackageEncoder, PackageError};

#[test]
fn framed_payload_reads_back() {
    let payload = b"some payload bytes, some payload bytes".to_vec();
    let framed = frame_package(&payload).ok().unwrap();
    assert_eq!(&framed[0..12], b"mkwbfontv0.1");
    assert_eq!(&framed[12..44], blake3::hash(&payload).as_bytes());
    assert_eq!(&framed[44..76], blake3::hash(&framed[76..]).as_bytes());
    assert_eq!(unframe_package(&framed).ok().unwrap(), payload);
}

#[test]
fn damaged_packages_are_refused() {
    let framed = frame_package(b"abc").ok().unwrap();
    assert_eq!(unframe_package(&framed[..76]).err(), Some(PackageError::TooShort));
    let mut bad = framed.clone();
    bad[0] = b'X';
    assert_eq!(unframe_package(&bad).err(), Some(PackageError::BadMagic));
    let mut bad = framed.clone();
    bad[11] = b'2';
    assert_eq!(unframe_package(&bad).err(), Some(PackageError::BadVersion));
    let mut bad = framed.clone();
    let last = bad.len() - 1;
    bad[last] ^= 1;
    assert_eq!(unframe_package(&bad).err(), Some(PackageError::CompressedHashMismatch));
    let mut bad = framed.clone();
    bad[12] ^= 1;
    assert_eq!(unframe_package(&bad).err(), Some(PackageError::DataHashMismatch));
}

#[test]
fn undecodable_payload_is_refused() {
    let junk = b"not zstd at all".to_vec();
    let mut framed = b"mkwbfontv0.1".to_vec();
    framed.extend_from_slice(&[0u8; 32]);
    framed.extend_from_slice(blake3::hash(&junk).as_bytes());
    framed.extend_from_slice(&junk);
    assert_eq!(unframe_package(&framed).err(), Some(PackageError::Decompression));
}

#[test]
fn zstd_roundtrip() {
    let data = vec![7u8; 1000];
    let c = zstd_compress(&data).ok().unwrap();
    assert!(c.len() < data.len());
    assert_eq!(zstd_decompress(&c).ok().unwrap(), data);
    assert!(zstd_decompress(b"junk").is_err());
}

#[test]
fn package_tables() {
    let mut e = DataPackageEncoder::new("pkg", 1234);
    e.insert_i64("n", -5);
    e.insert_u64("big", u64::MAX);
    e.insert_data("sec", vec![1, 2, 3]);
    let mut p = e.build();
    assert_eq!(p.package_id(), "pkg");
    assert_eq!(p.timestamp(), 1234);
    assert_eq!(p.get_i64("n").ok(), Some(-5));
    assert_eq!(p.get_i64("big").ok(), Some(-1));
    assert_eq!(p.get_u64("big").ok(), Some(u64::MAX));
    assert_eq!(p.get_data("sec").ok(), Some(&[1u8, 2, 3][..]));
    assert_eq!(p.get_i64("missing").err().unwrap().key, "missing");
    assert_eq!(p.take_data("sec").ok(), Some(vec![1, 2, 3]));
    assert!(p.get_data("sec").is_err());
    assert!(p.take_data("sec").is_err());
}

#[test]
fn package_from_parts_rejects_duplicates() {
    let dup = vec![("a".to_string(), 1i64), ("a".to_string(), 2)];
    assert!(DataPackage::from_parts("x".to_string(), 0, dup, vec![]).is_none());
    let ok = DataPackage::from_parts("x".to_string(), 0, vec![("a".to_string(), 1)], vec![("s".to_string(), vec![])]).unwrap();
    assert_eq!(ok.number_entries().len(), 1);
    assert_eq!(ok.section_entries()[0].0, "s");
}
