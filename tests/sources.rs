use std::path::Path;

use assets_manager::embedded::{Embedded, RawEmbedded};
use assets_manager::error::SourceError;
use assets_manager::filesystem::{extension_of, file_stem, has_extension, DirEntry, FileSystem};
use assets_manager::source::Source;

fn io_error(e: std::io::Error) -> SourceError {
    if e.kind() == std::io::ErrorKind::NotFound {
        SourceError::NotFound
    } else {
        SourceError::Io(e.to_string())
    }
}

fn open(path: &str) -> Result<FileSystem, SourceError> {
    let p = Path::new(path);
    let canonical = p.canonicalize().map(|c| c.to_string_lossy().into_owned()).map_err(io_error);
    let listing = p.read_dir().map(|_| ()).map_err(io_error);
    FileSystem::new(canonical, listing)
}

#[test]
fn new_with_valid_path() {
    let cache = open("src");
    assert!(cache.is_ok());
}

#[test]
fn new_with_invalid_path() {
    let cache = open("asset");
    assert!(cache.is_err());
    assert_eq!(cache.unwrap_err(), SourceError::NotFound);
}

#[test]
fn new_with_valid_file() {
    let cache = open("src/lib.rs");
    assert!(cache.is_err());
    assert!(matches!(cache.unwrap_err(), SourceError::Io(_)));
}

#[test]
fn first_failure_decides() {
    let r = FileSystem::new(Err(SourceError::NotFound), Err(SourceError::Io("x".to_string())));
    assert_eq!(r.unwrap_err(), SourceError::NotFound);
    let r = FileSystem::without_hot_reloading(Ok("/r".to_string()), Err(SourceError::Io("x".to_string())));
    assert_eq!(r.unwrap_err(), SourceError::Io("x".to_string()));
    let fs = FileSystem::without_hot_reloading(Ok("/r".to_string()), Ok(())).unwrap();
    assert_eq!(fs.root(), "/r");
    assert!(!fs.supports_hot_reload());
    let fs = FileSystem::new(Ok("/r".to_string()), Ok(())).unwrap();
    assert!(fs.supports_hot_reload());
}

#[test]
fn path_of_maps_dots_to_directories() {
    let fs = FileSystem::new(Ok("/root/assets".to_string()), Ok(())).unwrap();
    assert_eq!(fs.path_of("sprites.hero", "png"), "/root/assets/sprites/hero.png");
    assert_eq!(fs.path_of("test", ""), "/root/assets/test");
}

#[test]
fn extension_and_stem() {
    assert_eq!(extension_of("cache.x"), "x");
    assert_eq!(extension_of("archive.tar.gz"), "gz");
    assert_eq!(extension_of("noext"), "");
    assert_eq!(extension_of(".hidden"), "");
    assert_eq!(extension_of("trailing."), "");
    assert_eq!(file_stem("archive.tar.gz"), "archive.tar");
    assert_eq!(file_stem(".hidden"), ".hidden");
    assert_eq!(file_stem("trailing."), "trailing");
    assert!(has_extension("a.x", &["y", "x"]));
    assert!(!has_extension("a.z", &["y", "x"]));
}

#[test]
fn select_children_gives_leaf_ids_once() {
    let entries = vec![
        DirEntry { name: "a.x".to_string(), is_file: true },
        DirEntry { name: "a.y".to_string(), is_file: true },
        DirEntry { name: "a.b.x".to_string(), is_file: true },
        DirEntry { name: "c.y".to_string(), is_file: true },
    ];
    assert_eq!(FileSystem::select_children(&entries, &["x", "y"]), vec!["a".to_string(), "c".to_string()]);
}

#[test]
fn file_path_rejects_bad_extensions() {
    let fs = FileSystem::new(Ok("/r".to_string()), Ok(())).unwrap();
    assert_eq!(fs.file_path("a", "x/../../etc"), None);
    assert_eq!(fs.file_path("a", ""), Some("/r/a".to_string()));
}

#[test]
fn select_children_filters_listing() {
    let entries = vec![
        DirEntry { name: "a.x".to_string(), is_file: true },
        DirEntry { name: "b.x".to_string(), is_file: false },
        DirEntry { name: "other.y".to_string(), is_file: true },
        DirEntry { name: "cache.x".to_string(), is_file: true },
    ];
    assert_eq!(FileSystem::select_children(&entries, &["x"]), vec!["a".to_string(), "cache".to_string()]);
}

const FILES: &[((&str, &str), &[u8])] = &[
    (("test.cache", "x"), b"42"),
    (("test.cache", "x"), b"43"),
];

const TEST_DIR: &[(&str, &str)] = &[("a", "x"), ("other", "y"), ("cache", "x"), ("a", "y")];

const DIRS: &[(&str, &[(&str, &str)])] = &[("test", TEST_DIR)];

#[test]
fn embedded_reads_and_filters() {
    let source = Embedded::from(RawEmbedded { files: FILES, dirs: DIRS });
    assert_eq!(source.read("test.cache", "x"), Ok(b"43".to_vec()));
    assert_eq!(source.read("test.cache", "y"), Err(SourceError::NotFound));
    assert_eq!(source.read_dir("test", &["x"]), Ok(vec!["a".to_string(), "cache".to_string()]));
    assert_eq!(
        source.read_dir("test", &["y", "x"]),
        Ok(vec!["a".to_string(), "other".to_string(), "cache".to_string()])
    );
    assert_eq!(source.read_dir("none", &["x"]), Err(SourceError::NotFound));
}
