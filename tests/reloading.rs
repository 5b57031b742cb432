use assets_manager::cache::{Asset, AssetCache};
use assets_manager::embedded::{Embedded, RawEmbedded};
use assets_manager::error::LoadError;
use assets_manager::filesystem::{is_valid_id, FileSystem};
use assets_manager::loader::{LoadFrom, ParseLoader};
use assets_manager::reload::{Dependencies, DepsRecord};

#[derive(Debug, Clone, Copy, PartialEq, Eq)]
struct X(i32);

impl From<i32> for X {
    fn from(n: i32) -> X {
        X(n)
    }
}

impl Asset for X {
    type Loader = LoadFrom<i32, ParseLoader>;

    fn extensions() -> &'static [&'static str] {
        &["x"]
    }
}

const FILES: &[((&str, &str), &[u8])] = &[(("test.cache", "x"), b"42")];
const DIRS: &[(&str, &[(&str, &str)])] = &[];

fn new_cache() -> AssetCache<X, Embedded<'static>> {
    AssetCache::with_source(Embedded::from(RawEmbedded { files: FILES, dirs: DIRS }))
}

fn root() -> FileSystem {
    FileSystem::new(Ok("/data/assets".to_string()), Ok(())).unwrap()
}

#[test]
fn id_grammar() {
    assert!(is_valid_id("sprites.hero"));
    assert!(is_valid_id("a_b-c.D9"));
    assert!(!is_valid_id(""));
    assert!(!is_valid_id(".a"));
    assert!(!is_valid_id("a."));
    assert!(!is_valid_id("a..b"));
    assert!(!is_valid_id("a/b"));
    assert!(!is_valid_id("a b"));
}

#[test]
fn file_path_rejects_bad_ids() {
    let fs = root();
    assert_eq!(fs.file_path("a.b", "x"), Some("/data/assets/a/b.x".to_string()));
    assert_eq!(fs.file_path("a..b", "x"), None);
}

#[test]
fn id_of_path_inverts_path_of() {
    let fs = root();
    let path = fs.path_of("sprites.hero", "png");
    assert_eq!(fs.id_of_path(&path), Some(("sprites.hero".to_string(), "png".to_string())));
    let dir = fs.path_of("sprites", "");
    assert_eq!(fs.id_of_path(&dir), Some(("sprites".to_string(), String::new())));
}

#[test]
fn id_of_path_rejects_foreign_paths() {
    let fs = root();
    assert_eq!(fs.id_of_path("/elsewhere/a.x"), None);
    assert_eq!(fs.id_of_path("/data/assetsx/a.x"), None);
    assert_eq!(fs.id_of_path("/data/assets/"), None);
    assert_eq!(fs.id_of_path("/data/assets/a.b/c.x"), None);
    assert_eq!(fs.id_of_path("/data/assets/a."), None);
}

#[test]
fn reload_overwrites_in_place() {
    let mut cache = new_cache();
    let h = cache.load("test.cache").unwrap();
    assert_eq!(cache.reload("test.cache", "x", b"9".to_vec()), Ok(true));
    assert_eq!(*h.read(&cache), X(9));
    assert!(h.ptr_eq(&cache.load_cached("test.cache").unwrap()));
}

#[test]
fn failed_reload_keeps_value() {
    let mut cache = new_cache();
    let h = cache.load("test.cache").unwrap();
    assert_eq!(cache.reload("test.cache", "x", b"oops".to_vec()), Err(LoadError::InvalidNumber));
    assert_eq!(*h.read(&cache), X(42));
    assert_eq!(cache.reload("test.cache", "y", b"1".to_vec()), Ok(false));
    assert_eq!(cache.reload("test.other", "x", b"1".to_vec()), Ok(false));
    assert_eq!(*h.read(&cache), X(42));
}

#[test]
fn removed_handle_is_not_held() {
    let mut cache = new_cache();
    let h = cache.load("test.cache").unwrap();
    assert!(cache.holds_handle(&h));
    cache.remove("test.cache");
    assert!(!cache.holds_handle(&h));
}

#[test]
fn compound_cascade() {
    let mut deps = Dependencies::new();
    deps.add_compound("level".to_string(), vec!["tiles".to_string(), "music".to_string()]);
    deps.add_compound("world".to_string(), vec!["level".to_string()]);
    deps.add_compound("menu".to_string(), vec!["font".to_string()]);

    let mut rebuilt = deps.cascade("tiles");
    rebuilt.sort();
    assert_eq!(rebuilt, vec!["level".to_string(), "world".to_string()]);
    assert_eq!(deps.cascade("font"), vec!["menu".to_string()]);
    assert!(deps.cascade("nothing").is_empty());

    deps.add_compound("level".to_string(), vec!["music".to_string()]);
    assert!(deps.cascade("tiles").is_empty());
    deps.clear();
    assert!(deps.cascade("music").is_empty());
}

#[test]
fn cascade_stops_on_cycles() {
    let mut deps = Dependencies::new();
    deps.add_compound("a".to_string(), vec!["b".to_string()]);
    deps.add_compound("b".to_string(), vec!["a".to_string()]);
    let mut rebuilt = deps.cascade("a");
    rebuilt.sort();
    assert_eq!(rebuilt, vec!["a".to_string(), "b".to_string()]);
}

#[test]
fn tracked_loads_are_recorded_once() {
    let mut cache = new_cache();
    let mut record = DepsRecord::new();
    assert!(cache.load_tracked("test.cache", &mut record).is_ok());
    assert!(cache.load_tracked("test.missing", &mut record).is_err());
    assert!(cache.load_tracked("test.cache", &mut record).is_ok());
    assert_eq!(record.into_ids(), vec!["test.cache".to_string(), "test.missing".to_string()]);
}
