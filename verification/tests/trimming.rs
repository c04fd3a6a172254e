use pathtrim::ParsedPath;
use pathtrim::PathStyle;
use pathtrim::TrimmablePath;

// Trimming keeps the last n components; asking for the full component count
// (the root marker counts as one) returns the whole path, and asking for
// more returns None.

#[test]
fn trimmable_path_unix_basic_cases() {
    let p = ParsedPath::parse("/usr/local/bin/", PathStyle::Unix);
    let trimmed = p.trim_to_nth(1).unwrap();
    assert_eq!(trimmed.render(), "bin");
    let trimmed = p.trim_to_nth(2).unwrap();
    assert_eq!(trimmed.render(), "local/bin");
    let trimmed = p.trim_to_nth(3).unwrap();
    assert_eq!(trimmed.render(), "usr/local/bin");
    let trimmed = p.trim_to_nth(4).unwrap();
    assert_eq!(trimmed.render(), "/usr/local/bin");
    let trimmed = p.trim_to_nth(5);
    assert!(trimmed.is_none());
}

#[test]
fn trimmable_path_unix_edge_cases() {
    let p = ParsedPath::parse("/", PathStyle::Unix);
    assert_eq!(p.component_count(), 1);
    let trimmed = p.trim_to_nth(1).unwrap();
    assert_eq!(trimmed.render(), "/");
    let trimmed = p.trim_to_nth(2);
    assert!(trimmed.is_none());
}

#[test]
fn lib_trimmable_path_windows_basic_cases() {
    let p = ParsedPath::parse("C:\\Program Files\\package\\bin\\", PathStyle::Windows);
    let trimmed = p.trim_to_nth(1).unwrap();
    assert_eq!(trimmed.render(), "bin");
    let trimmed = p.trim_to_nth(2).unwrap();
    assert_eq!(trimmed.render(), "package\\bin");
    let trimmed = p.trim_to_nth(3).unwrap();
    assert_eq!(trimmed.render(), "Program Files\\package\\bin");
    let trimmed = p.trim_to_nth(5);
    assert!(trimmed.is_none());
}

#[test]
fn trimmable_path_windows_edge_cases() {
    let p = ParsedPath::parse("C:\\", PathStyle::Windows);
    assert_eq!(p.component_count(), 1);
    let trimmed = p.trim_to_nth(1).unwrap();
    assert_eq!(trimmed.render(), "C:\\");
    let trimmed = p.trim_to_nth(2);
    assert!(trimmed.is_none());
}

#[test]
fn trimmable_path_macos_basic_cases() {
    let p = ParsedPath::parse("/Library/Application Support/package/", PathStyle::Unix);
    let trimmed = p.trim_to_nth(1).unwrap();
    assert_eq!(trimmed.render(), "package");
    let trimmed = p.trim_to_nth(2).unwrap();
    assert_eq!(trimmed.render(), "Application Support/package");
    let trimmed = p.trim_to_nth(3).unwrap();
    assert_eq!(trimmed.render(), "Library/Application Support/package");
    let trimmed = p.trim_to_nth(4).unwrap();
    assert_eq!(trimmed.render(), "/Library/Application Support/package");
}

#[test]
fn it_works_1() {
    let p = ParsedPath::parse("/usr/local/bin/", PathStyle::Unix);
    assert_eq!(p.component_count(), 4);
    let trimmed = p.trim_to_nth(1).unwrap();
    assert_eq!(trimmed.render(), "bin");
    let trimmed = p.trim_to_nth(2).unwrap();
    assert_eq!(trimmed.render(), "local/bin");
    let trimmed = p.trim_to_nth(3).unwrap();
    assert_eq!(trimmed.render(), "usr/local/bin");
    let trimmed = p.trim_to_nth(300);
    assert!(trimmed.is_none());
}

#[test]
fn it_works_2() {
    let p = ParsedPath::parse("/usr/local/bin/", PathStyle::Unix);
    assert_eq!(p.trim_to_nth(1).unwrap().render(), "bin");
    assert_eq!(p.trim_to_nth(2).unwrap().render(), "local/bin");
    assert_eq!(p.trim_to_nth(3).unwrap().render(), "usr/local/bin");
    assert!(p.trim_to_nth(300).is_none());
}

#[test]
fn external_api_test_trimmable_path_windows_basic_cases() {
    let p = ParsedPath::parse("C:\\Program Files\\package\\bin\\", PathStyle::Windows);
    let trimmed = p.trim_to_nth(1).unwrap();
    assert_eq!(trimmed.render(), "bin");
    let trimmed = p.trim_to_nth(2).unwrap();
    assert_eq!(trimmed.render(), "package\\bin");
    let trimmed = p.trim_to_nth(3).unwrap();
    assert_eq!(trimmed.render(), "Program Files\\package\\bin");
    let trimmed = p.trim_to_nth(5);
    assert!(trimmed.is_none());
}
