use ftldat::{Entry, Package, PackageEntry};

#[test]
fn package_new_package_should_be_empty() {
    let package = Package::new();

    assert_eq!(0, package.entry_count());
}

#[test]
fn package_add_entry_should_succeed_when_innerpath_is_free() {
    let mut package = Package::new();
    let inner_path = "test";
    let content = "test";

    let result = package.add_entry(PackageEntry::from_string(inner_path, content));

    assert!(result.is_ok());
    assert_eq!(1, package.entry_count());
    assert!(package.entry_exists(inner_path));
    assert_eq!(
        content.as_bytes(),
        package.content_by_path(inner_path).unwrap_or(Vec::new())
    );
}

#[test]
fn package_add_entry_should_fail_when_innerpath_is_taken() {
    let mut package = Package::new();
    let inner_path = "test";
    let content1 = "test";

    let result = package.add_entry(PackageEntry::from_string(inner_path, content1));
    assert!(result.is_ok());

    let content2 = "test123";
    let result = package.add_entry(PackageEntry::from_string(inner_path, content2));

    assert!(result.is_err());
    assert_eq!(1, package.entry_count());
    assert!(package.entry_exists(inner_path));
    assert_eq!(
        content1.as_bytes(),
        package.content_by_path(inner_path).unwrap_or(Vec::new())
    );
}

#[test]
fn package_put_entry_should_succeed_when_innerpath_is_free() {
    let mut package = Package::new();
    let inner_path = "test";
    let content = "test";

    package.put_entry(PackageEntry::from_string(inner_path, content));

    assert_eq!(1, package.entry_count());
    assert!(package.entry_exists(inner_path));
    assert_eq!(
        content.as_bytes(),
        package.content_by_path(inner_path).unwrap_or(Vec::new())
    );
}

#[test]
fn package_put_entry_should_succeed_when_innerpath_is_taken() {
    let mut package = Package::new();
    let inner_path = "test";
    let content1 = "test";

    package.put_entry(PackageEntry::from_string(inner_path, content1));

    let content2 = "test123";
    package.put_entry(PackageEntry::from_string(inner_path, content2));

    assert_eq!(1, package.entry_count());
    assert!(package.entry_exists(inner_path));
    assert_eq!(
        content2.as_bytes(),
        package.content_by_path(inner_path).unwrap_or(Vec::new())
    );
}

#[test]
fn package_remove_entry_should_return_false_when_innerpath_is_free() {
    let mut package = Package::new();

    let result = package.remove_entry("test");

    assert_eq!(false, result);
}

#[test]
fn package_remove_entry_should_return_true_when_innerpath_is_taken() {
    let mut package = Package::new();
    let inner_path = "test";
    package.put_entry(PackageEntry::from_string(inner_path, "test"));

    let result = package.remove_entry(inner_path);

    assert_eq!(true, result);
    assert_eq!(0, package.entry_count());
}

#[test]
fn package_entry_exists_should_return_false_when_innerpath_is_free() {
    let package = Package::new();

    let result = package.entry_exists("test");

    assert_eq!(false, result);
}

#[test]
fn package_entry_exists_should_return_true_when_innerpath_is_taken() {
    let mut package = Package::new();
    let inner_path = "test";
    package.put_entry(PackageEntry::from_string(inner_path, "test"));

    let result = package.entry_exists(inner_path);

    assert_eq!(true, result);
    assert_eq!(1, package.entry_count());
}

#[test]
fn package_content_by_path_should_return_content_when_exists() {
    let mut package = Package::new();
    let inner_path = "test";
    package.put_entry(PackageEntry::from_string(inner_path, "test"));

    let result: Option<Vec<u8>> = package.content_by_path(inner_path);

    assert!(result.is_some());
    let content = result.unwrap();
    assert_eq!("test".as_bytes(), content);
}

#[test]
fn package_content_by_path_should_return_none_when_doesnt_exist() {
    let package = Package::new();

    let result: Option<Vec<u8>> = package.content_by_path("test");

    assert!(result.is_none());
}

#[test]
fn package_clear_should_remove_all_entries_from_package() {
    let mut package = Package::new();
    package.put_entry(PackageEntry::from_string("test1", "test"));
    package.put_entry(PackageEntry::from_string("test2", "test"));
    package.put_entry(PackageEntry::from_string("test3", "test"));
    assert_eq!(3, package.entry_count());

    package.clear();

    assert_eq!(0, package.entry_count());
}

#[test]
fn package_put_entry_preserves_position_of_replaced_entry() {
    let mut package = Package::new();
    package.put_entry(PackageEntry::from_string("a", "1"));
    package.put_entry(PackageEntry::from_string("b", "2"));
    package.put_entry(PackageEntry::from_string("c", "3"));

    package.put_entry(PackageEntry::from_string("b", "replaced"));

    let paths = package.inner_paths();
    assert_eq!(vec!["a".to_string(), "b".to_string(), "c".to_string()], paths);
    assert_eq!(
        "replaced".as_bytes(),
        package.content_by_path("b").unwrap_or(Vec::new())
    );
}

#[test]
fn package_remove_entry_keeps_later_entries_reachable() {
    let mut package = Package::new();
    package.put_entry(PackageEntry::from_string("a", "1"));
    package.put_entry(PackageEntry::from_string("b", "2"));
    package.put_entry(PackageEntry::from_string("c", "3"));

    assert!(package.remove_entry("b"));

    assert_eq!(2, package.entry_count());
    assert_eq!(vec!["a".to_string(), "c".to_string()], package.inner_paths());
    assert_eq!("3".as_bytes(), package.content_by_path("c").unwrap_or(Vec::new()));
}

#[test]
fn entry_accessors_report_path_and_content() {
    let entry = PackageEntry::from_byte_array("dir/file.txt", vec![1u8, 2, 3]);
    assert_eq!("dir/file.txt", entry.inner_path());
    assert_eq!(Some(vec![1u8, 2, 3]), entry.content_bytes());

    let text = PackageEntry::from_string("a.txt", "hello");
    assert_eq!(Some("hello".to_string()), text.content_string());
    assert_eq!(None, PackageEntry::from_byte_array("b", vec![0xffu8]).content_string());
}

#[test]
fn simple_entry_owns_path_and_content() {
    let entry = Entry::_from("notes.txt", "hello world");
    assert_eq!("notes.txt", entry.inner_path());
    assert_eq!("hello world".as_bytes(), entry.content_bytes());
    assert_eq!("hello world", entry.content_string());
}

#[test]
fn entry_from_file_defers_content_to_io_layer() {
    let entry = PackageEntry::from_file("inner.txt", "somewhere/on/disk.txt");
    assert_eq!("inner.txt", entry.inner_path());
    assert_eq!(None, entry.content_bytes());
    assert!(entry.is_file_backed());
}
