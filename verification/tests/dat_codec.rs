use ftldat::{dat, DatWriter, ErrorKind, Package, PackageEntry, PackageReadError};

/// The bytes of a three-entry DAT archive: `test1.txt` through `test3.txt`
/// holding `test001` through `test003`.
fn sample_dat() -> Vec<u8> {
    let mut v = Vec::new();
    v.extend_from_slice(&3u32.to_le_bytes());
    for i in 0..3u32 {
        v.extend_from_slice(&(16 + 24 * i).to_le_bytes());
    }
    for (path, content) in [
        ("test1.txt", "test001"),
        ("test2.txt", "test002"),
        ("test3.txt", "test003"),
    ] {
        v.extend_from_slice(&(content.len() as u32).to_le_bytes());
        v.extend_from_slice(&(path.len() as u32).to_le_bytes());
        v.extend_from_slice(path.as_bytes());
        v.extend_from_slice(content.as_bytes());
    }
    v
}

#[test]
fn reader_should_correctly_read_package() {
    let result = dat::read_from_bytes(&sample_dat());
    if result.is_err() {
        panic!("{:?}", result.unwrap_err());
    }

    let package = result.unwrap();
    assert_eq!(3, package.entry_count());

    let paths = package.inner_paths();
    assert_eq!("test1.txt", paths[0]);
    assert_eq!("test2.txt", paths[1]);
    assert_eq!("test3.txt", paths[2]);

    let contents = paths
        .iter()
        .map(|path| {
            let vec = package.content_by_path(path).unwrap();
            String::from_utf8(vec).expect("Invalid UTF-8 sequence")
        })
        .collect::<Vec<String>>();
    assert_eq!("test001", contents[0]);
    assert_eq!("test002", contents[1]);
    assert_eq!("test003", contents[2]);
}

#[test]
fn dat_writer_writer_should_create_file_on_disk_if_missing() {
    let mut package = Package::new();
    package.put_entry_from_string("test", "test123");

    let result = DatWriter.write_package_to_bytes(&package);

    assert!(result.is_ok());
    assert_eq!(27, result.unwrap().len());
}

#[test]
fn dat_writer_entry_order_should_be_retained_between_writes() {
    let package = dat::read_from_bytes(&sample_dat()).unwrap();
    let order_before_write = package.inner_paths();

    let result = DatWriter.write_package_to_bytes(&package);
    assert!(result.is_ok());
    let package = dat::read_from_bytes(&result.unwrap()).unwrap();
    let order_after_write = package.inner_paths();

    assert_eq!(order_before_write.len(), order_after_write.len());
    assert_eq!(order_before_write[0], order_after_write[0]);
    assert_eq!(order_before_write[1], order_after_write[1]);
    assert_eq!(order_before_write[2], order_after_write[2]);
}

#[test]
fn dat_minimal_package_bytes_are_exact() {
    let mut package = Package::new();
    package.put_entry(PackageEntry::from_string("test", "test123"));

    let bytes = DatWriter.write_package_to_bytes(&package).unwrap();

    let mut expected = Vec::new();
    expected.extend_from_slice(&1u32.to_le_bytes());
    expected.extend_from_slice(&8u32.to_le_bytes());
    expected.extend_from_slice(&7u32.to_le_bytes());
    expected.extend_from_slice(&4u32.to_le_bytes());
    expected.extend_from_slice("test".as_bytes());
    expected.extend_from_slice("test123".as_bytes());
    assert_eq!(expected, bytes);
}

#[test]
fn dat_round_trip_preserves_empty_package() {
    let package = Package::new();
    let bytes = DatWriter.write_package_to_bytes(&package).unwrap();
    assert_eq!(4, bytes.len());

    let reread = dat::read_from_bytes(&bytes).unwrap();
    assert_eq!(0, reread.entry_count());
}

#[test]
fn dat_round_trip_preserves_binary_content() {
    let mut package = Package::new();
    package.put_entry(PackageEntry::from_byte_array("bin", vec![0u8, 255, 10, 0]));
    package.put_entry(PackageEntry::from_string("empty", ""));

    let bytes = DatWriter.write_package_to_bytes(&package).unwrap();
    let reread = dat::read_from_bytes(&bytes).unwrap();

    assert_eq!(vec!["bin".to_string(), "empty".to_string()], reread.inner_paths());
    assert_eq!(Some(vec![0u8, 255, 10, 0]), reread.content_by_path("bin"));
    assert_eq!(Some(Vec::new()), reread.content_by_path("empty"));
}

#[test]
fn dat_read_rejects_short_input() {
    let result = dat::read_from_bytes(&[1u8, 0]);
    assert!(matches!(result, Err(PackageReadError::UnexpectedEnd)));

    let mut truncated = sample_dat();
    truncated.truncate(20);
    let result = dat::read_from_bytes(&truncated);
    let err = result.unwrap_err();
    assert_eq!(ErrorKind::MalformedInput, err.kind());
    assert!(matches!(err, PackageReadError::UnexpectedEnd));
}

#[test]
fn dat_read_rejects_invalid_utf8_path() {
    let mut v = Vec::new();
    v.extend_from_slice(&1u32.to_le_bytes());
    v.extend_from_slice(&8u32.to_le_bytes());
    v.extend_from_slice(&0u32.to_le_bytes());
    v.extend_from_slice(&2u32.to_le_bytes());
    v.extend_from_slice(&[0xffu8, 0xfe]);

    let result = dat::read_from_bytes(&v);
    assert!(matches!(result, Err(PackageReadError::InvalidUtf8)));
}

#[test]
fn dat_read_rejects_duplicate_paths() {
    let mut package = Package::new();
    package.put_entry_from_string("same", "one");
    let mut bytes = DatWriter.write_package_to_bytes(&package).unwrap();

    // Grow the archive to two entries that share one record, so both carry
    // the same path.
    let record_offset = bytes[4..8].to_vec();
    bytes.splice(0..4, 2u32.to_le_bytes());
    let shifted = u32::from_le_bytes([record_offset[0], record_offset[1], record_offset[2], record_offset[3]]) + 4;
    bytes.splice(4..8, shifted.to_le_bytes());
    bytes.splice(8..8, shifted.to_le_bytes());

    let result = dat::read_from_bytes(&bytes);
    match result {
        Err(PackageReadError::InnerPathAlreadyExists(e)) => assert_eq!("same", e.0),
        other => panic!("{:?}", other),
    }
}
