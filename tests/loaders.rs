use assets_manager::error::LoadError;
use assets_manager::loader::{BytesLoader, LoadFrom, LoadOrDefault, Loader, ParseLoader, StringLoader};

#[derive(Debug, Clone, Copy, PartialEq, Eq)]
struct X(i32);

impl From<i32> for X {
    fn from(n: i32) -> X {
        X(n)
    }
}

fn raw(s: &str) -> Vec<u8> {
    s.as_bytes().to_vec()
}

#[test]
fn string_loader() {
    let raw = raw("Hello World!");
    let loaded: String = StringLoader::load(raw, "").unwrap();

    assert_eq!(loaded, "Hello World!");
}

#[test]
fn load_or_default() {
    let raw = raw("a");

    let loaded: i32 = LoadOrDefault::<ParseLoader>::load(raw, "").unwrap();

    assert_eq!(loaded, 0);
}

#[test]
fn parse_loader() {
    let n = rand::random::<i32>();
    let s = &format!("{}", n);
    let raw = raw(s);

    let loaded: i32 = ParseLoader::load(raw, "").unwrap();

    assert_eq!(loaded, n);
}

#[test]
fn from_other() {
    let n = rand::random::<i32>();
    let s = &format!("{}", n);
    let raw = raw(s);

    let loaded: X = LoadFrom::<i32, ParseLoader>::load(raw, "").unwrap();

    assert_eq!(loaded, X(n));
}

#[test]
fn bytes_loader_keeps_content() {
    let loaded: Vec<u8> = BytesLoader::load(vec![0, 159, 146, 150], "bin").unwrap();
    assert_eq!(loaded, vec![0, 159, 146, 150]);
}

#[test]
fn string_loader_rejects_invalid_utf8() {
    let loaded: Result<String, LoadError> = StringLoader::load(vec![0, 159, 146, 150], "");
    assert_eq!(loaded, Err(LoadError::InvalidUtf8));
}

#[test]
fn string_loader_decodes_multibyte() {
    let loaded = StringLoader::load_text(&"héllo ✓".as_bytes().to_vec()).unwrap();
    assert_eq!(loaded, "héllo ✓");
}

#[test]
fn parse_loader_signs_and_bounds() {
    assert_eq!(ParseLoader::load_i32(&raw("-7")), Ok(-7));
    assert_eq!(ParseLoader::load_i32(&raw("+42")), Ok(42));
    assert_eq!(ParseLoader::load_i32(&raw("2147483647")), Ok(i32::MAX));
    assert_eq!(ParseLoader::load_i32(&raw("-2147483648")), Ok(i32::MIN));
    assert_eq!(ParseLoader::load_i32(&raw("2147483648")), Err(LoadError::InvalidNumber));
    assert_eq!(ParseLoader::load_i32(&raw("")), Err(LoadError::InvalidNumber));
    assert_eq!(ParseLoader::load_i32(&raw("-")), Err(LoadError::InvalidNumber));
    assert_eq!(ParseLoader::load_i32(&raw(" 1")), Err(LoadError::InvalidNumber));
    assert_eq!(ParseLoader::load_i32(&vec![0xff]), Err(LoadError::InvalidUtf8));
    assert_eq!(ParseLoader::load_u32(&raw("-0")), Err(LoadError::InvalidNumber));
    assert_eq!(ParseLoader::load_u32(&raw("4294967295")), Ok(u32::MAX));
    assert_eq!(ParseLoader::load_i64(&raw("-9223372036854775808")), Ok(i64::MIN));
    assert_eq!(ParseLoader::load_u64(&raw("18446744073709551615")), Ok(u64::MAX));
    assert_eq!(ParseLoader::load_u64(&raw("18446744073709551616")), Err(LoadError::InvalidNumber));
}

#[test]
fn load_or_default_keeps_success() {
    let loaded: i32 = LoadOrDefault::<ParseLoader>::load(raw("12"), "").unwrap();
    assert_eq!(loaded, 12);
}
