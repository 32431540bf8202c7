use ftldat::{dat, pkg, PackageEntry, SharedMmap};

/// Builds a read-only memory mapping holding the given bytes.
fn map_of(bytes: &[u8]) -> SharedMmap {
    let mut m = memmap2::MmapOptions::new()
        .len(bytes.len().max(1))
        .map_anon()
        .expect("failed to create an anonymous mapping");
    m[..bytes.len()].copy_from_slice(bytes);
    SharedMmap::new(m.make_read_only().expect("failed to freeze the mapping"))
}

fn small_dat() -> Vec<u8> {
    let mut v = Vec::new();
    v.extend_from_slice(&2u32.to_le_bytes());
    v.extend_from_slice(&12u32.to_le_bytes());
    v.extend_from_slice(&28u32.to_le_bytes());
    for (path, content) in [("one", "first"), ("two", "second")] {
        v.extend_from_slice(&(content.len() as u32).to_le_bytes());
        v.extend_from_slice(&(path.len() as u32).to_le_bytes());
        v.extend_from_slice(path.as_bytes());
        v.extend_from_slice(content.as_bytes());
    }
    v
}

#[test]
fn dat_read_from_map_matches_read_from_bytes() {
    let bytes = small_dat();
    let map = map_of(&bytes);
    assert_eq!(bytes.len(), map.len());

    let mapped = dat::read_from_map(&map).unwrap();
    let copied = dat::read_from_bytes(&bytes).unwrap();

    assert_eq!(copied.inner_paths(), mapped.inner_paths());
    for path in mapped.inner_paths() {
        assert_eq!(copied.content_by_path(&path), mapped.content_by_path(&path));
    }
    assert_eq!(Some("second".as_bytes().to_vec()), mapped.content_by_path("two"));
}

#[test]
fn pkg_read_from_map_serves_content_after_map_handle_drops() {
    let mut package = ftldat::Package::new();
    package.put_entry(PackageEntry::from_string("a.txt", "alpha"));
    package.put_entry(PackageEntry::from_string("b.txt", "beta"));
    let bytes = ftldat::PkgWriter.write_package_to_bytes(&package).unwrap();

    let map = map_of(&bytes);
    let reread = pkg::read_package_from_map(&map).unwrap();
    // The entries hold their own references; the original handle may go.
    drop(map);

    assert_eq!(vec!["a.txt".to_string(), "b.txt".to_string()], reread.inner_paths());
    assert_eq!("alpha".as_bytes(), reread.content_by_path("a.txt").unwrap());
    assert_eq!(Some("beta".to_string()), reread.string_content_by_path("b.txt"));
}

#[test]
fn entry_from_memory_mapped_file_reads_its_range() {
    let map = map_of(b"0123456789");
    let entry = PackageEntry::from_memory_mapped_file("mid", &map, 2, 5);

    assert_eq!("mid", entry.inner_path());
    assert_eq!(Some(b"23456".to_vec()), entry.content_bytes());

    let other = PackageEntry::from_memory_mapped_file("all", &map.share(), 0, 10);
    assert_eq!(Some(b"0123456789".to_vec()), other.content_bytes());
}
