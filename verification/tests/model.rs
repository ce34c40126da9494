use std::path::PathBuf;

use lilyabc_browser::index::name_from_parts;
use lilyabc_browser::model::{Format, RenderOutput};
use lilyabc_browser::order::sort_by_keys;
use lilyabc_browser::path::{
    components, extension_text, fold, has_base, relative_names, same_path, sort_key, stem_text, Part, PathPrefix,
};

fn normal(name: &[u8]) -> Part {
    Part::Normal(name.to_vec())
}

#[test]
fn format_from_extension() {
    assert_eq!(Format::from_path(&PathBuf::from("a.ly")), Some(Format::LilyPond));
    assert_eq!(Format::from_path(&PathBuf::from("a.ABC")), Some(Format::Abc));
    assert_eq!(Format::from_path(&PathBuf::from("a.txt")), None);
}

#[test]
fn format_needs_a_real_extension() {
    assert_eq!(Format::from_path(&PathBuf::from("dir/b.ILY")), Some(Format::LilyPond));
    assert_eq!(Format::from_path(&PathBuf::from("x.y.abc")), Some(Format::Abc));
    assert_eq!(Format::from_path(&PathBuf::from(".ly")), None);
    assert_eq!(Format::from_path(&PathBuf::from("ly")), None);
    assert_eq!(Format::from_path(&PathBuf::from("a.ly.")), None);
    assert_eq!(Format::from_path(&PathBuf::from("a.ly/..")), None);
    assert_eq!(Format::from_path(&PathBuf::from("")), None);
}

#[test]
fn format_of_plain_values() {
    assert_eq!(Format::from_extension("Ly"), Some(Format::LilyPond));
    assert_eq!(Format::from_extension("lyy"), None);
    assert_eq!(Format::from_parts(&vec![Part::RootDir, normal(b"t.abc")]), Some(Format::Abc));
    assert_eq!(Format::from_parts(&vec![normal(b"t.abc"), Part::ParentDir]), None);
    assert_eq!(Format::from_parts(&vec![normal(b"t.ab\xff")]), None);
    // A name that is not Unicode may still have a known extension.
    assert_eq!(Format::from_parts(&vec![normal(b"caf\xe9.abc")]), Some(Format::Abc));
    assert_eq!(name_from_parts(&vec![normal(b"caf\xe9.abc")]), "?");
}

#[test]
fn stems_and_extensions() {
    let parts = vec![normal(b"out.cropped.svg")];
    assert_eq!(stem_text(&parts), Some("out.cropped".to_string()));
    assert_eq!(extension_text(&parts), Some("svg".to_string()));
    assert_eq!(stem_text(&vec![normal(b".hidden")]), Some(".hidden".to_string()));
    assert_eq!(extension_text(&vec![normal(b".hidden")]), None);
    assert_eq!(extension_text(&vec![normal(b"end.")]), Some(String::new()));
    assert_eq!(stem_text(&vec![Part::RootDir]), None);
}

#[test]
fn paths_are_compared_by_components() {
    assert!(same_path(&PathBuf::from("a//b/./c/"), &PathBuf::from("a/b/c")));
    assert!(!same_path(&PathBuf::from("./a"), &PathBuf::from("a")));
    assert!(!same_path(&PathBuf::from("a/b"), &PathBuf::from("a")));
    assert!(!same_path(&PathBuf::from("/a"), &PathBuf::from("a")));
    let base = vec![Part::RootDir, normal(b"m")];
    let path = vec![Part::RootDir, normal(b"m"), Part::ParentDir, normal(b"x"), normal(b"f\xff")];
    assert!(has_base(&path, &base));
    assert!(!has_base(&base, &path));
    let m = || Some("m".to_string());
    let texts = vec![None, m(), None, Some("x".to_string()), Some("f\u{fffd}".to_string())];
    assert_eq!(relative_names(&path, &base, &texts), vec!["x".to_string(), "f\u{fffd}".to_string()]);
    assert_eq!(relative_names(&base, &path, &vec![None, m()]), vec!["m".to_string()]);
}

#[test]
fn sort_keys_rank_the_kinds_of_components() {
    let disk = || Part::Prefix(Some(PathPrefix::Disk(b'C')));
    let key = sort_key(&vec![disk(), Part::RootDir, Part::CurDir, Part::ParentDir, normal(b"a")]);
    assert_eq!(key, vec![vec![0, 6], b"C".to_vec(), vec![1], vec![2], vec![3], b"\x04a".to_vec()]);
}

#[test]
fn prefixes_are_ordered_by_kind_and_then_by_name() {
    let bytes = |s: &str| s.as_bytes().to_vec();
    let prefixes = vec![
        PathPrefix::Disk(b'A'),
        PathPrefix::VerbatimDisk(b'Z'),
        PathPrefix::Unc(bytes("s"), bytes("b")),
        PathPrefix::Unc(bytes("s"), bytes("a")),
        PathPrefix::Unc(bytes("r"), bytes("z")),
        PathPrefix::DeviceNs(bytes("d")),
        PathPrefix::VerbatimUnc(bytes("s"), bytes("a")),
        PathPrefix::Verbatim(bytes("v")),
    ];
    let keys = prefixes.into_iter().map(|p| sort_key(&vec![Part::Prefix(Some(p)), normal(b"f")])).collect();
    assert_eq!(sort_by_keys(vec![0, 1, 2, 3, 4, 5, 6, 7], keys), vec![7, 6, 5, 4, 3, 2, 1, 0]);
}

#[test]
fn the_case_of_a_drive_letter_does_not_count() {
    let path = |d: u8| vec![Part::Prefix(Some(fold(PathPrefix::Disk(d)))), Part::RootDir, normal(b"x")];
    assert!(has_base(&path(b'c'), &path(b'C')));
    assert!(!has_base(&path(b'c'), &path(b'D')));
    assert_eq!(sort_key(&path(b'c')), sort_key(&path(b'C')));
    assert!(matches!(fold(PathPrefix::VerbatimDisk(b'z')), PathPrefix::VerbatimDisk(b'Z')));
    assert!(matches!(fold(PathPrefix::Verbatim(b"c".to_vec())), PathPrefix::Verbatim(n) if n == b"c".to_vec()));
}

#[test]
fn paths_are_taken_apart() {
    let parts = components(&PathBuf::from("/a/../b"));
    assert_eq!(parts.len(), 4);
    assert!(matches!(parts[0], Part::RootDir));
    assert!(matches!(&parts[1], Part::Normal(n) if n == b"a"));
    assert!(matches!(parts[2], Part::ParentDir));
    assert!(matches!(&parts[3], Part::Normal(n) if n == b"b"));
    assert!(matches!(components(&PathBuf::from("./a"))[0], Part::CurDir));
}

#[test]
fn default_output_is_empty_and_not_ok() {
    let output = RenderOutput::default();
    assert!(output.pages.is_empty());
    assert_eq!(output.diagnostics, "");
    assert!(!output.ok);
}
