use ftldat::{dat, DatWriter, Package};

/// The bytes of a three-entry DAT archive: `test1.txt` through `test3.txt`
/// holding `test001` through `test003`.
fn three_entry_dat() -> Vec<u8> {
    let mut v = Vec::new();
    v.extend_from_slice(&3u32.to_le_bytes());
    for i in 0..3u32 {
        v.extend_from_slice(&(16 + 24 * i).to_le_bytes());
    }
    for (path, content) in [
        ("test1.txt", "test001"),
        ("test2.txt", "test002"),
        ("test3.txt", "test003"),
    ] {
        v.extend_from_slice(&(content.len() as u32).to_le_bytes());
        v.extend_from_slice(&(path.len() as u32).to_le_bytes());
        v.extend_from_slice(path.as_bytes());
        v.extend_from_slice(content.as_bytes());
    }
    v
}

#[test]
fn ftldat_new_package_should_be_empty() {
    let package = Package::new();

    assert_eq!(0, package.len());
}

#[test]
fn ftldat_add_entry_should_succeed_when_innerpath_is_free() {
    let mut package = Package::new();
    let inner_path = "test";
    let content = "test";

    let result = package.add_entry_from_string(inner_path, content);

    assert!(result.is_ok());
    assert_eq!(1, package.len());
    assert!(package.entry_exists(inner_path));
    assert_eq!(
        content,
        package
            .string_content_by_path(inner_path)
            .unwrap_or("".to_string())
    );
}

#[test]
fn ftldat_add_entry_should_fail_when_innerpath_is_taken() {
    let mut package = Package::new();
    let inner_path = "test";
    let content1 = "test";

    let result = package.add_entry_from_string(inner_path, content1);
    assert!(result.is_ok());

    let content2 = "test123";
    let result = package.add_entry_from_string(inner_path, content2);

    assert!(result.is_err());
    assert_eq!(1, package.len());
    assert!(package.entry_exists(inner_path));
    assert_eq!(
        content1,
        package
            .string_content_by_path(inner_path)
            .unwrap_or("".to_string())
    );
}

#[test]
fn ftldat_put_entry_should_succeed_when_innerpath_is_free() {
    let mut package = Package::new();
    let inner_path = "test";
    let content = "test";

    package.put_entry_from_string(inner_path, content);

    assert_eq!(1, package.len());
    assert!(package.entry_exists(inner_path));
    assert_eq!(
        content,
        package
            .string_content_by_path(inner_path)
            .unwrap_or("".to_string())
    );
}

#[test]
fn ftldat_put_entry_should_succeed_when_innerpath_is_taken() {
    let mut package = Package::new();
    let inner_path = "test";
    let content1 = "test";

    package.put_entry_from_string(inner_path, content1);

    let content2 = "test123";
    package.put_entry_from_string(inner_path, content2);

    assert_eq!(1, package.len());
    assert!(package.entry_exists(inner_path));
    assert_eq!(
        content2,
        package
            .string_content_by_path(inner_path)
            .unwrap_or("".to_string())
    );
}

#[test]
fn ftldat_remove_entry_should_return_false_when_innerpath_is_free() {
    let mut package = Package::new();

    let result = package.remove_entry("test");

    assert_eq!(false, result);
}

#[test]
fn ftldat_remove_entry_should_return_true_when_innerpath_is_taken() {
    let mut package = Package::new();
    let inner_path = "test";
    package.put_entry_from_string(inner_path, "test");

    let result = package.remove_entry(inner_path);

    assert_eq!(true, result);
    assert_eq!(0, package.len());
}

#[test]
fn ftldat_entry_exists_should_return_false_when_innerpath_is_free() {
    let package = Package::new();

    let result = package.entry_exists("test");

    assert_eq!(false, result);
}

#[test]
fn ftldat_entry_exists_should_return_true_when_innerpath_is_taken() {
    let mut package = Package::new();
    let inner_path = "test";
    package.put_entry_from_string(inner_path, "test");

    let result = package.entry_exists(inner_path);

    assert_eq!(true, result);
    assert_eq!(1, package.len());
}

#[test]
fn ftldat_content_by_path_should_return_content_when_exists() {
    let mut package = Package::new();
    let inner_path = "test";
    package.put_entry_from_string(inner_path, "test");

    let result: Option<String> = package.string_content_by_path(inner_path);

    assert!(result.is_some());
    let content = result.unwrap();
    assert_eq!("test", content);
}

#[test]
fn ftldat_content_by_path_should_return_none_when_doesnt_exist() {
    let package = Package::new();

    let result: Option<String> = package.string_content_by_path("test");

    assert!(result.is_none());
}

#[test]
fn ftldat_clear_should_remove_all_entries_from_package() {
    let mut package = Package::new();
    package.put_entry_from_string("test1", "test");
    package.put_entry_from_string("test2", "test");
    package.put_entry_from_string("test3", "test");
    assert_eq!(3, package.len());

    package.clear();

    assert_eq!(0, package.len());
}

#[test]
fn from_reader_should_correctly_read_ftldat() {
    let result = dat::read_from_bytes(&three_entry_dat());

    assert!(result.is_ok());
    let package = result.unwrap();
    assert_eq!(3, package.len());

    let paths = package.inner_paths();
    assert_eq!("test1.txt", paths[0]);
    assert_eq!("test2.txt", paths[1]);
    assert_eq!("test3.txt", paths[2]);

    let contents = paths
        .iter()
        .map(|path| package.string_content_by_path(path).unwrap())
        .collect::<Vec<String>>();
    assert_eq!("test001", contents[0]);
    assert_eq!("test002", contents[1]);
    assert_eq!("test003", contents[2]);
}

#[test]
fn write_should_create_file_on_disk_if_missing() {
    let mut package = Package::new();
    package.put_entry_from_string("test", "test123");

    let result = DatWriter.write_package_to_bytes(&package);

    assert!(result.is_ok());
    assert_eq!(27, result.unwrap().len());
}

#[test]
fn ftldat_entry_order_should_be_retained_between_writes() {
    let package = dat::read_from_bytes(&three_entry_dat()).unwrap();
    let order_before_write = package.inner_paths();

    let result = DatWriter.write_package_to_bytes(&package);
    assert!(result.is_ok());
    let package = dat::read_from_bytes(&result.unwrap()).unwrap();
    let order_after_write = package.inner_paths();

    assert_eq!(order_before_write.len(), order_after_write.len());
    assert_eq!(order_before_write[0], order_after_write[0]);
    assert_eq!(order_before_write[1], order_after_write[1]);
    assert_eq!(order_before_write[2], order_after_write[2]);
}
