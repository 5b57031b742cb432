use std::sync::{Arc, Mutex};

use assets_manager::cache::{child_ids, Asset, AssetCache};
use assets_manager::embedded::{Embedded, RawEmbedded};
use assets_manager::error::{Error, LoadError, SourceError};
use assets_manager::loader::{LoadFrom, ParseLoader};
use assets_manager::source::Source;

#[derive(Debug, Clone, Copy, PartialEq, Eq)]
struct X(i32);

impl From<i32> for X {
    fn from(n: i32) -> X {
        X(n)
    }
}

impl Asset for X {
    type Loader = LoadFrom<i32, ParseLoader>;

    fn extensions() -> &'static [&'static str] {
        &["x"]
    }
}

#[derive(Debug, Clone, Copy, PartialEq, Eq)]
struct Y(i32);

impl From<i32> for Y {
    fn from(n: i32) -> Y {
        Y(n)
    }
}

impl Asset for Y {
    type Loader = LoadFrom<i32, ParseLoader>;

    fn extensions() -> &'static [&'static str] {
        &["y", "x"]
    }
}

const FILES: &[((&str, &str), &[u8])] = &[
    (("test.a", "x"), b"nope"),
    (("test.b", "x"), b"-7"),
    (("test.cache", "x"), b"42"),
    (("test.other", "y"), b"ignore"),
];

const TEST_DIR: &[(&str, &str)] = &[("a", "x"), ("b", "x"), ("cache", "x"), ("other", "y")];

const DIRS: &[(&str, &[(&str, &str)])] = &[("test", TEST_DIR)];

fn assets() -> Embedded<'static> {
    Embedded::from(RawEmbedded { files: FILES, dirs: DIRS })
}

fn new_cache<A>() -> AssetCache<A, Embedded<'static>> {
    AssetCache::with_source(assets())
}

#[test]
fn load() {
    let mut cache = new_cache::<X>();

    let h = cache.load("test.cache").unwrap();
    assert_eq!(*h.read(&cache), X(42));
}

#[test]
fn load_cached() {
    let mut cache = new_cache::<X>();

    assert!(cache.load_cached("test.cache").is_none());
    cache.load("test.cache").unwrap();
    assert_eq!(*cache.load_cached("test.cache").unwrap().read(&cache), X(42));
}

#[test]
fn load_dir_ok() {
    let mut cache = new_cache::<X>();

    let dir = cache.load_dir("test").unwrap();
    let mut loaded: Vec<_> = dir.iter().iter().map(|x| x.read(&cache).0).collect();
    loaded.sort();
    assert_eq!(loaded, [-7, 42]);
}

#[test]
fn load_dir_all() {
    let mut cache = new_cache::<X>();

    let dir = cache.load_dir("test").unwrap();
    let mut loaded: Vec<_> = dir.iter_all().clone();
    loaded.sort_by_key(|i| i.0.clone());
    let mut loaded = loaded.into_iter();

    let (id, x) = loaded.next().unwrap();
    assert_eq!(id, "test.a");
    assert!(x.is_err());

    let (id, x) = loaded.next().unwrap();
    assert_eq!(id, "test.b");
    assert_eq!(*x.unwrap().read(&cache), X(-7));

    let (id, x) = loaded.next().unwrap();
    assert_eq!(id, "test.cache");
    assert_eq!(*x.unwrap().read(&cache), X(42));

    assert!(loaded.next().is_none());
}

#[test]
fn take() {
    let mut cache = new_cache::<X>();

    cache.load("test.cache").unwrap();
    assert!(cache.load_cached("test.cache").is_some());
    assert_eq!(cache.take("test.cache"), Some(X(42)));
    assert!(cache.load_cached("test.cache").is_none());
}

#[test]
fn remove() {
    let mut cache = new_cache::<X>();

    cache.load("test.cache").unwrap();
    assert!(cache.load_cached("test.cache").is_some());
    cache.remove("test.cache");
    assert!(cache.load_cached("test.cache").is_none());
}

#[test]
fn load_errors_are_reported_and_not_cached() {
    let mut cache = new_cache::<X>();

    assert_eq!(cache.load("test.a"), Err(Error::LoaderFailed(LoadError::InvalidNumber)));
    assert!(!cache.contains("test.a"));
    assert_eq!(cache.load("test.missing"), Err(Error::NotFound));
    assert_eq!(cache.load("test.other"), Err(Error::NotFound));
    assert!(!cache.contains("test.missing"));
}

#[test]
fn extensions_are_tried_in_order() {
    let mut cache = new_cache::<Y>();

    let h = cache.load("test.other");
    assert_eq!(h.map(|_| ()), Err(Error::LoaderFailed(LoadError::InvalidNumber)));
    let h = cache.load("test.b").unwrap();
    assert_eq!(*h.read(&cache), Y(-7));
}

#[test]
fn load_dir_missing() {
    let mut cache = new_cache::<X>();
    assert!(matches!(cache.load_dir("nothing"), Err(Error::NotFound)));
}

#[test]
fn insert_then_load_reads_inserted_value() {
    let mut cache = new_cache::<X>();

    let h = cache.insert("made.up", X(5)).unwrap();
    let again = cache.load("made.up").unwrap();
    assert!(h.ptr_eq(&again));
    assert_eq!(*again.read(&cache), X(5));
}

#[test]
fn types_do_not_share_entries() {
    let mut xs = new_cache::<X>();
    let mut ys = new_cache::<Y>();

    xs.insert("only.x", X(1)).unwrap();
    assert!(xs.contains("only.x"));
    assert_eq!(ys.load("only.x"), Err(Error::NotFound));
}

#[test]
fn overwrite_is_seen_through_old_handle() {
    let mut cache = new_cache::<X>();

    let h = cache.insert("slot", X(0)).unwrap();
    let same = cache.overwrite("slot", X(9)).unwrap();
    assert_eq!(*h.read(&cache), X(9));
    assert!(h.ptr_eq(&same));
    assert!(h.ptr_eq(&cache.load_cached("slot").unwrap()));
    assert!(cache.overwrite("absent", X(1)).is_none());
}

#[test]
fn load_twice_gives_same_entry() {
    let mut cache = new_cache::<X>();

    let a = cache.load("test.cache").unwrap();
    let b = cache.load("test.cache").unwrap();
    assert!(a.ptr_eq(&b));
}

#[test]
fn remove_then_load_gives_new_entry() {
    let mut cache = new_cache::<X>();

    let a = cache.load("test.cache").unwrap();
    cache.remove("test.cache");
    let b = cache.load("test.cache").unwrap();
    assert!(!a.ptr_eq(&b));
    assert_eq!(*b.read(&cache), X(42));
}

#[derive(Clone)]
struct DropCounter(Arc<Mutex<usize>>);

impl Drop for DropCounter {
    fn drop(&mut self) {
        let mut count = self.0.lock().unwrap();
        *count += 1;
    }
}

#[test]
fn dropping_cache_drops_each_value_once() {
    let count = DropCounter(Arc::new(Mutex::new(0)));
    {
        let mut cache: AssetCache<DropCounter, Embedded<'static>> = AssetCache::with_source(assets());
        for id in ["a", "b", "c"] {
            assert!(cache.insert(id, count.clone()).is_ok());
        }
        assert_eq!(*count.0.lock().unwrap(), 0);
    }
    assert_eq!(*count.0.lock().unwrap(), 3);
}

#[test]
fn child_ids_join_and_dedupe() {
    let leaves = vec!["a".to_string(), "b".to_string(), "a".to_string()];
    assert_eq!(child_ids("dir", &leaves), vec!["dir.a".to_string(), "dir.b".to_string()]);
}

struct Broken;

impl Source for Broken {
    fn read(&self, id: &str, ext: &str) -> Result<Vec<u8>, SourceError> {
        match (id, ext) {
            ("ok", "x") => Ok(b"3".to_vec()),
            _ => Err(SourceError::Io("disk on fire".to_string())),
        }
    }

    fn read_dir(&self, _: &str, _: &[&str]) -> Result<Vec<String>, SourceError> {
        Err(SourceError::Io("no listing".to_string()))
    }
}

#[test]
fn io_errors_are_reported() {
    let mut cache: AssetCache<X, Broken> = AssetCache::with_source(Broken);
    assert_eq!(cache.load("bad"), Err(Error::Io("disk on fire".to_string())));
    assert!(!cache.contains("bad"));
    assert!(matches!(cache.load_dir("any"), Err(Error::Io(_))));
    let h = cache.load("ok").unwrap();
    assert_eq!(*h.read(&cache), X(3));
}

#[test]
fn settle_acts_on_each_read() {
    let mut cache = new_cache::<X>();
    assert!(cache.settle("n", "x", Err(SourceError::NotFound)).is_none());
    assert_eq!(
        cache.settle("n", "x", Err(SourceError::Io("e".to_string()))),
        Some(Err(Error::Io("e".to_string())))
    );
    assert_eq!(
        cache.settle("n", "x", Ok(b"z".to_vec())),
        Some(Err(Error::LoaderFailed(LoadError::InvalidNumber)))
    );
    assert!(!cache.contains("n"));
    let h = cache.settle("n", "x", Ok(b"5".to_vec())).unwrap().unwrap();
    assert_eq!(*h.read(&cache), X(5));
}

#[test]
fn install_reports_loader_failure() {
    let mut cache = new_cache::<X>();
    assert_eq!(cache.install("i", Err(LoadError::InvalidUtf8)), Err(Error::LoaderFailed(LoadError::InvalidUtf8)));
    let h = cache.install("i", Ok(X(8))).unwrap();
    assert_eq!(*h.read(&cache), X(8));
}

#[test]
fn load_listed_loads_each_member_once() {
    let mut cache = new_cache::<X>();
    let listing = vec!["b".to_string(), "cache".to_string(), "b".to_string(), "gone".to_string()];
    let dir = cache.load_listed("test", &listing);
    let all = dir.iter_all().clone();
    assert_eq!(all.len(), 3);
    assert_eq!(all[0].0, "test.b");
    assert_eq!(*all[0].1.clone().unwrap().read(&cache), X(-7));
    assert_eq!(all[1].0, "test.cache");
    assert_eq!(all[2].0, "test.gone");
    assert_eq!(all[2].1, Err(Error::NotFound));
}

#[test]
fn load_from_reads_first_decisive_result_wins() {
    let mut cache = new_cache::<X>();
    let reads = vec![
        ("y", Err(SourceError::NotFound)),
        ("x", Err(SourceError::Io("busy".to_string()))),
        ("z", Ok(b"1".to_vec())),
    ];
    assert_eq!(cache.load_from_reads("r", reads), Err(Error::Io("busy".to_string())));
    let reads = vec![("y", Err(SourceError::NotFound)), ("x", Err(SourceError::NotFound))];
    assert_eq!(cache.load_from_reads("r", reads), Err(Error::NotFound));
    let reads = vec![("y", Err(SourceError::NotFound)), ("x", Ok(b"12".to_vec()))];
    let h = cache.load_from_reads("r", reads).unwrap();
    assert_eq!(*h.read(&cache), X(12));
    assert_eq!(cache.load_from_reads("r", Vec::new()).unwrap(), h);
}
