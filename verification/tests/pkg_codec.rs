use ftldat::{calculate_path_hash, pkg, read_null_terminated_string, EntryReadError, Package, PackageEntry, PackageReadError, PkgWriter};

/// The bytes of a three-entry PKG archive: `test1.txt` through `test3.txt`
/// holding `test001` through `test003`.
fn sample_pkg() -> Vec<u8> {
    let paths = ["test1.txt", "test2.txt", "test3.txt"];
    let contents = ["test001", "test002", "test003"];
    let mut v = vec![80u8, 75, 71, 10];
    v.extend_from_slice(&16u16.to_be_bytes());
    v.extend_from_slice(&20u16.to_be_bytes());
    v.extend_from_slice(&3u32.to_be_bytes());
    v.extend_from_slice(&30u32.to_be_bytes());
    // Path region: 30 bytes, so two bytes of padding; data starts at 108.
    for i in 0..3usize {
        v.extend_from_slice(&calculate_path_hash(paths[i]).to_be_bytes());
        v.push(0);
        v.extend_from_slice(&((i * 10) as u32).to_be_bytes()[1..]);
        v.extend_from_slice(&((108 + i * 7) as u32).to_be_bytes());
        v.extend_from_slice(&7u32.to_be_bytes());
        v.extend_from_slice(&7u32.to_be_bytes());
    }
    for path in paths {
        v.extend_from_slice(path.as_bytes());
        v.push(0);
    }
    v.extend_from_slice(&[0u8, 0]);
    for content in contents {
        v.extend_from_slice(content.as_bytes());
    }
    v
}

#[test]
fn reader_correctly_reads_test_package() {
    let result = pkg::read_package_from_bytes(&sample_pkg());
    if result.is_err() {
        panic!("{:?}", result.unwrap_err());
    }

    let package = result.unwrap();
    assert_eq!(3, package.entry_count());

    let paths = package.inner_paths();
    assert_eq!("test1.txt", paths[0]);
    assert_eq!("test2.txt", paths[1]);
    assert_eq!("test3.txt", paths[2]);

    let contents = paths
        .iter()
        .map(|path| {
            let vec = package.content_by_path(path).unwrap();
            String::from_utf8(vec).expect("Invalid UTF-8 sequence")
        })
        .collect::<Vec<String>>();
    assert_eq!("test001", contents[0]);
    assert_eq!("test002", contents[1]);
    assert_eq!("test003", contents[2]);
}

#[test]
fn pkg_writer_writer_should_create_file_on_disk_if_missing() {
    let mut package = Package::new();
    package.put_entry(PackageEntry::from_string("test", "test123"));

    let result = PkgWriter.write_package_to_bytes(&package);

    assert!(result.is_ok());
    assert_eq!(51, result.unwrap().len());
}

#[test]
fn pkg_writer_entry_order_should_be_retained_between_writes() {
    let package = pkg::read_package_from_bytes(&sample_pkg()).unwrap();
    let order_before_write = package.inner_paths();

    let result = PkgWriter.write_package_to_bytes(&package);
    assert!(result.is_ok());
    let package = pkg::read_package_from_bytes(&result.unwrap()).unwrap();
    let order_after_write = package.inner_paths();

    assert_eq!(order_before_write.len(), order_after_write.len());
    assert_eq!(order_before_write[0], order_after_write[0]);
    assert_eq!(order_before_write[1], order_after_write[1]);
    assert_eq!(order_before_write[2], order_after_write[2]);
}

#[test]
fn pkg_minimal_package_rereads_identically() {
    let mut package = Package::new();
    package.put_entry(PackageEntry::from_string("test", "test123"));

    let bytes = PkgWriter.write_package_to_bytes(&package).unwrap();
    assert_eq!(51, bytes.len());

    let reread = pkg::read_package_from_bytes(&bytes).unwrap();
    assert_eq!(1, reread.entry_count());
    assert_eq!(vec!["test".to_string()], reread.inner_paths());
    assert_eq!(
        "test123".as_bytes(),
        reread.content_by_path("test").unwrap_or(Vec::new())
    );
}

#[test]
fn pkg_round_trip_preserves_order_and_content() {
    let mut package = Package::new();
    package.put_entry(PackageEntry::from_string("b/second.txt", "BBB"));
    package.put_entry(PackageEntry::from_string("a/first.txt", "AAA"));
    package.put_entry(PackageEntry::from_byte_array("raw.bin", vec![9u8, 8, 7]));

    let bytes = PkgWriter.write_package_to_bytes(&package).unwrap();
    let reread = pkg::read_package_from_bytes(&bytes).unwrap();

    assert_eq!(
        vec![
            "b/second.txt".to_string(),
            "a/first.txt".to_string(),
            "raw.bin".to_string()
        ],
        reread.inner_paths()
    );
    assert_eq!(Some(vec![9u8, 8, 7]), reread.content_by_path("raw.bin"));
    assert_eq!("AAA".as_bytes(), reread.content_by_path("a/first.txt").unwrap());
}

#[test]
fn pkg_read_rejects_wrong_signature_byte() {
    let mut bytes = sample_pkg();
    bytes[1] = 88;

    let result = pkg::read_package_from_bytes(&bytes);
    match result {
        Err(PackageReadError::SignatureMismatch { expected, actual }) => {
            assert_eq!(75, expected);
            assert_eq!(88, actual);
        }
        other => panic!("{:?}", other),
    }
}

#[test]
fn pkg_read_rejects_wrong_header_size() {
    let mut bytes = sample_pkg();
    bytes[5] = 17;

    let result = pkg::read_package_from_bytes(&bytes);
    match result {
        Err(PackageReadError::HeaderSizeMismatch { expected, actual }) => {
            assert_eq!(16, expected);
            assert_eq!(17, actual);
        }
        other => panic!("{:?}", other),
    }
}

#[test]
fn pkg_read_rejects_wrong_entry_header_size() {
    let mut bytes = sample_pkg();
    bytes[7] = 24;

    let result = pkg::read_package_from_bytes(&bytes);
    match result {
        Err(PackageReadError::EntriesHeaderSizeMismatch { expected, actual }) => {
            assert_eq!(20, expected);
            assert_eq!(24, actual);
        }
        other => panic!("{:?}", other),
    }
}

#[test]
fn pkg_read_rejects_deflated_entry() {
    let mut bytes = sample_pkg();
    // The flags byte of the second entry header.
    bytes[16 + 20 + 4] = 1;

    let result = pkg::read_package_from_bytes(&bytes);
    match result {
        Err(PackageReadError::EntryRead(EntryReadError::UnsupportedDeflatedEntry(flags))) => {
            assert_eq!(1, flags);
        }
        other => panic!("{:?}", other),
    }
}

#[test]
fn pkg_read_rejects_edited_path_with_hash_mismatch() {
    let mut bytes = sample_pkg();
    // Turn the stored path `test1.txt` into `xest1.txt` without updating
    // its stored hash.
    let path_region = 16 + 3 * 20;
    assert_eq!(b't', bytes[path_region]);
    bytes[path_region] = b'x';

    let result = pkg::read_package_from_bytes(&bytes);
    match result {
        Err(PackageReadError::EntryRead(EntryReadError::PathHashMismatch {
            inner_path,
            expected,
            actual,
        })) => {
            assert_eq!("xest1.txt", inner_path);
            assert_eq!(calculate_path_hash("test1.txt"), expected);
            assert_eq!(calculate_path_hash("xest1.txt"), actual);
        }
        other => panic!("{:?}", other),
    }
}

#[test]
fn pkg_read_accepts_case_flipped_path_since_hash_is_case_folded() {
    let mut bytes = sample_pkg();
    // The hash covers the lower-cased path, so flipping a letter's case
    // leaves it unchanged and the read succeeds with the flipped path.
    let path_region = 16 + 3 * 20;
    bytes[path_region + 3] = b'T';

    let package = pkg::read_package_from_bytes(&bytes).unwrap();
    assert_eq!("tesT1.txt", package.inner_paths()[0]);
}

#[test]
fn pkg_read_rejects_truncated_data_region() {
    let mut bytes = sample_pkg();
    bytes.truncate(bytes.len() - 1);

    let result = pkg::read_package_from_bytes(&bytes);
    assert!(matches!(result, Err(PackageReadError::UnexpectedEnd)));
}

#[test]
fn null_terminated_strings_stop_at_the_first_zero_byte() {
    let region = b"alpha\0beta\0";
    assert_eq!("alpha", read_null_terminated_string(region, 0).unwrap());
    assert_eq!("beta", read_null_terminated_string(region, 6).unwrap());
    assert_eq!("", read_null_terminated_string(region, 5).unwrap());
    // Reading from a region with no terminator left fails.
    assert!(read_null_terminated_string(b"alpha", 0).is_err());
    assert!(read_null_terminated_string(region, 100).is_err());
}

#[test]
fn pkg_read_rejects_short_header() {
    let result = pkg::read_package_from_bytes(&[80u8, 75, 71, 10, 0]);
    assert!(matches!(result, Err(PackageReadError::UnexpectedEnd)));
}
