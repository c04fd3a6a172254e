use pathtrim::Component;
use pathtrim::ParsedPath;
use pathtrim::PathStyle;
use pathtrim::TrimmablePath;

// The boundary policy: keeping the full component count returns the whole
// path, keeping zero components returns an empty path, and only a request
// beyond the component count is absent.

#[test]
fn full_length_trim_keeps_the_whole_path() {
    let p = ParsedPath::parse("C:\\Program Files\\package\\bin", PathStyle::Windows);
    assert_eq!(p.component_count(), 4);
    let trimmed = p.trim_to_nth(4).unwrap();
    assert_eq!(trimmed.render(), "C:\\Program Files\\package\\bin");
    assert!(p.trim_to_nth(5).is_none());
}

#[test]
fn zero_components_gives_an_empty_path() {
    let p = ParsedPath::parse("/usr/local", PathStyle::Unix);
    let trimmed = p.trim_to_nth(0).unwrap();
    assert_eq!(trimmed.component_count(), 0);
    assert_eq!(trimmed.render(), "");
}

#[test]
fn empty_text_has_no_components() {
    let p = ParsedPath::parse("", PathStyle::Unix);
    assert_eq!(p.component_count(), 0);
    let trimmed = p.trim_to_nth(0).unwrap();
    assert_eq!(trimmed.render(), "");
    assert!(p.trim_to_nth(1).is_none());
}

#[test]
fn unix_root_marker_rendering() {
    let p = ParsedPath::parse("/usr/local/bin", PathStyle::Unix);
    assert_eq!(p.trim_to_nth(1).unwrap().render(), "bin");
    assert_eq!(p.trim_to_nth(2).unwrap().render(), "local/bin");
    assert_eq!(p.trim_to_nth(3).unwrap().render(), "usr/local/bin");
    assert_eq!(p.trim_to_nth(4).unwrap().render(), "/usr/local/bin");
    assert!(p.trim_to_nth(5).is_none());
}

#[test]
fn windows_drive_marker_rendering() {
    let p = ParsedPath::parse("C:\\Program Files\\package\\bin", PathStyle::Windows);
    assert_eq!(p.trim_to_nth(1).unwrap().render(), "bin");
    assert_eq!(p.trim_to_nth(2).unwrap().render(), "package\\bin");
    assert_eq!(p.trim_to_nth(3).unwrap().render(), "Program Files\\package\\bin");
    assert!(p.trim_to_nth(5).is_none());
}

#[test]
fn bare_root_paths_count_as_one_component() {
    let unix_root = ParsedPath::parse("/", PathStyle::Unix);
    assert_eq!(unix_root.component_count(), 1);
    assert_eq!(unix_root.trim_to_nth(1).unwrap().render(), "/");
    let drive_root = ParsedPath::parse("C:\\", PathStyle::Windows);
    assert_eq!(drive_root.component_count(), 1);
    assert_eq!(drive_root.trim_to_nth(1).unwrap().render(), "C:\\");
    let bare_backslash = ParsedPath::parse("\\", PathStyle::Windows);
    assert_eq!(bare_backslash.component_count(), 1);
    assert_eq!(bare_backslash.trim_to_nth(1).unwrap().render(), "\\");
}

#[test]
fn order_of_trailing_components_is_kept() {
    let p = ParsedPath::parse("a/b/c/d", PathStyle::Unix);
    assert_eq!(p.component_count(), 4);
    assert_eq!(p.trim_to_nth(2).unwrap().render(), "c/d");
    assert_eq!(p.trim_to_nth(3).unwrap().render(), "b/c/d");
}

#[test]
fn reference_components_are_kept() {
    let p = ParsedPath::parse("../pkg/./src", PathStyle::Unix);
    assert_eq!(p.component_count(), 4);
    assert_eq!(p.trim_to_nth(4).unwrap().render(), "../pkg/./src");
    assert_eq!(p.trim_to_nth(1).unwrap().render(), "src");
}

#[test]
fn repeated_and_trailing_separators_are_ignored() {
    let p = ParsedPath::parse("//usr///bin//", PathStyle::Unix);
    assert_eq!(p.component_count(), 3);
    assert_eq!(p.trim_to_nth(2).unwrap().render(), "usr/bin");
}

#[test]
fn relative_paths_trim_without_a_root_marker() {
    let p = ParsedPath::parse("usr/local", PathStyle::Unix);
    assert_eq!(p.component_count(), 2);
    assert_eq!(p.trim_to_nth(1).unwrap().render(), "local");
    assert_eq!(p.trim_to_nth(2).unwrap().render(), "usr/local");
    assert!(p.trim_to_nth(3).is_none());
}

// A named segment that reads like a drive prefix can come to stand first
// after trimming; its rendering then reads back as a drive marker. The
// component count of the re-decomposition is still the count requested.
#[test]
fn drive_shaped_segment_keeps_the_component_count() {
    let p = ParsedPath::parse("dir\\C:\\x", PathStyle::Windows);
    assert_eq!(p.component_count(), 3);
    let trimmed = p.trim_to_nth(2).unwrap();
    assert_eq!(trimmed.component_count(), 2);
    assert_eq!(trimmed.render(), "C:\\x");
    let reparsed = ParsedPath::parse(&trimmed.render(), PathStyle::Windows);
    assert_eq!(reparsed.component_count(), 2);
}

#[test]
fn every_trim_result_redecomposes_to_the_requested_count() {
    let p = ParsedPath::parse("/one/two/three/four", PathStyle::Unix);
    let len = p.component_count();
    for n in 0..=len {
        let trimmed = p.trim_to_nth(n).unwrap();
        assert_eq!(trimmed.component_count(), n);
        let reparsed = ParsedPath::parse(&trimmed.render(), PathStyle::Unix);
        assert_eq!(reparsed.component_count(), n);
    }
}

#[test]
fn paths_can_be_built_from_components() {
    let comps = vec![
        Component::Normal(String::from("a")),
        Component::Normal(String::from("b")),
    ];
    let p = ParsedPath::from_components(comps, PathStyle::Unix);
    assert_eq!(p.component_count(), 2);
    assert_eq!(p.render(), "a/b");
    assert_eq!(p.trim_to_nth(1).unwrap().render(), "b");
}

#[test]
fn unicode_segments_round_trip() {
    let p = ParsedPath::parse("/data/\u{e9}t\u{e9}/caf\u{e9}", PathStyle::Unix);
    assert_eq!(p.component_count(), 4);
    assert_eq!(p.trim_to_nth(2).unwrap().render(), "\u{e9}t\u{e9}/caf\u{e9}");
}
