//! Loaders: conversions from the raw bytes of a file to a typed value.
use vstd::prelude::*;
use vstd::utf8::{decode_utf8, valid_utf8};

use crate::error::LoadError;
use vstd::std_specs::convert::IntoSpec;

verus! {

/// Specifies how an asset is loaded from its raw bytes.
///
/// The extension of the file that was read is passed too, for types that
/// accept several formats.
pub trait Loader<T> {
    /// Whether `r` is an outcome of loading `content`, read from a file with
    /// extension `ext`. A loader that states nothing allows any outcome.
    open spec fn loads(content: Seq<u8>, ext: Seq<char>, r: Result<T, LoadError>) -> bool {
        true
    }

    /// Loads an asset from its raw bytes representation.
    fn load(content: Vec<u8>, ext: &str) -> (r: Result<T, LoadError>)
        ensures
            Self::loads(content@, ext@, r),
    ;
}

/// Whether `c` is a decimal digit.
pub open spec fn is_digit(c: char) -> bool {
    '0' <= c && c <= '9'
}

/// Whether `s` is a non-empty run of decimal digits.
pub open spec fn all_digits(s: Seq<char>) -> bool {
    s.len() > 0 && forall|i: int| 0 <= i < s.len() ==> is_digit(#[trigger] s[i])
}

/// The value of a run of decimal digits.
pub open spec fn digits_value(s: Seq<char>) -> int
    decreases s.len(),
{
    if s.len() == 0 {
        0
    } else {
        digits_value(s.drop_last()) * 10 + (s.last() as u32 - '0' as u32)
    }
}

/// The number that `s` writes as decimal digits after an optional sign, if
/// it writes one; a minus sign only where `signed` allows it.
pub open spec fn number_value(s: Seq<char>, signed: bool) -> Option<int> {
    if s.len() > 0 && s[0] == '+' && all_digits(s.drop_first()) {
        Some(digits_value(s.drop_first()))
    } else if signed && s.len() > 0 && s[0] == '-' && all_digits(s.drop_first()) {
        Some(-digits_value(s.drop_first()))
    } else if all_digits(s) {
        Some(digits_value(s))
    } else {
        None
    }
}

/// Whether `s` writes a number from `lo` to `hi`.
pub open spec fn number_within(s: Seq<char>, signed: bool, lo: int, hi: int) -> bool {
    number_value(s, signed) is Some && lo <= number_value(s, signed)->Some_0 <= hi
}

/// Relies on `std::str::from_utf8`: it succeeds exactly on valid UTF-8 and
/// then holds the decoded characters.
#[verifier::external_body]
fn utf8_text(bytes: &[u8]) -> (r: Option<&str>)
    ensures
        r is Some == valid_utf8(bytes@),
        r is Some ==> r->Some_0@ == decode_utf8(bytes@),
{
    std::str::from_utf8(bytes).ok()
}

/// Relies on `i32`'s `FromStr`: an optional sign and decimal digits whose
/// value fits in the type, and nothing else.
#[verifier::external_body]
fn parse_i32(s: &str) -> (r: Option<i32>)
    ensures
        r is Some == number_within(s@, true, i32::MIN as int, i32::MAX as int),
        r is Some ==> number_value(s@, true) == Some(r->Some_0 as int),
{
    s.parse::<i32>().ok()
}

/// Relies on `i64`'s `FromStr`: an optional sign and decimal digits whose
/// value fits in the type, and nothing else.
#[verifier::external_body]
fn parse_i64(s: &str) -> (r: Option<i64>)
    ensures
        r is Some == number_within(s@, true, i64::MIN as int, i64::MAX as int),
        r is Some ==> number_value(s@, true) == Some(r->Some_0 as int),
{
    s.parse::<i64>().ok()
}

/// Relies on `u32`'s `FromStr`: an optional plus sign and decimal digits
/// whose value fits in the type, and nothing else.
#[verifier::external_body]
fn parse_u32(s: &str) -> (r: Option<u32>)
    ensures
        r is Some == number_within(s@, false, 0, u32::MAX as int),
        r is Some ==> number_value(s@, false) == Some(r->Some_0 as int),
{
    s.parse::<u32>().ok()
}

/// Relies on `u64`'s `FromStr`: an optional plus sign and decimal digits
/// whose value fits in the type, and nothing else.
#[verifier::external_body]
fn parse_u64(s: &str) -> (r: Option<u64>)
    ensures
        r is Some == number_within(s@, false, 0, u64::MAX as int),
        r is Some ==> number_value(s@, false) == Some(r->Some_0 as int),
{
    s.parse::<u64>().ok()
}

/// Loads assets as raw bytes, unchanged.
#[derive(Debug)]
pub struct BytesLoader(());

impl Loader<Vec<u8>> for BytesLoader {
    open spec fn loads(content: Seq<u8>, ext: Seq<char>, r: Result<Vec<u8>, LoadError>) -> bool {
        r is Ok && r->Ok_0@ == content
    }

    fn load(content: Vec<u8>, _ext: &str) -> (r: Result<Vec<u8>, LoadError>)
        ensures
            r == Ok::<Vec<u8>, LoadError>(content),
    {
        Ok(content)
    }
}

/// Loads assets as a `String`: the content is decoded as UTF-8.
#[derive(Debug)]
pub struct StringLoader(());

impl StringLoader {
    /// Decodes `content` as UTF-8.
    pub fn load_text(content: &Vec<u8>) -> (r: Result<String, LoadError>)
        ensures
            valid_utf8(content@) ==> r is Ok && r->Ok_0@ == decode_utf8(content@),
            !valid_utf8(content@) ==> r == Err::<String, LoadError>(LoadError::InvalidUtf8),
    {
        match utf8_text(content.as_slice()) {
            Some(text) => Ok(text.to_owned()),
            None => Err(LoadError::InvalidUtf8),
        }
    }
}

impl Loader<String> for StringLoader {
    open spec fn loads(content: Seq<u8>, ext: Seq<char>, r: Result<String, LoadError>) -> bool {
        &&& valid_utf8(content) ==> r is Ok && r->Ok_0@ == decode_utf8(content)
        &&& !valid_utf8(content) ==> r == Err::<String, LoadError>(LoadError::InvalidUtf8)
    }

    fn load(content: Vec<u8>, _ext: &str) -> (r: Result<String, LoadError>)
        ensures
            valid_utf8(content@) ==> r is Ok && r->Ok_0@ == decode_utf8(content@),
            !valid_utf8(content@) ==> r == Err::<String, LoadError>(LoadError::InvalidUtf8),
    {
        StringLoader::load_text(&content)
    }
}

/// Loads numbers written in decimal, after UTF-8 decoding.
#[derive(Debug)]
pub struct ParseLoader(());

/// What parsing `content` as a number from `lo` to `hi` gives.
pub open spec fn parse_outcome(content: Seq<u8>, signed: bool, lo: int, hi: int) -> Result<
    int,
    LoadError,
> {
    if !valid_utf8(content) {
        Err(LoadError::InvalidUtf8)
    } else if number_within(decode_utf8(content), signed, lo, hi) {
        Ok(number_value(decode_utf8(content), signed)->Some_0)
    } else {
        Err(LoadError::InvalidNumber)
    }
}

impl ParseLoader {
    /// Parses `content` as an `i32`.
    pub fn load_i32(content: &Vec<u8>) -> (r: Result<i32, LoadError>)
        ensures
            match parse_outcome(content@, true, i32::MIN as int, i32::MAX as int) {
                Ok(v) => r is Ok && r->Ok_0 as int == v,
                Err(e) => r == Err::<i32, LoadError>(e),
            },
    {
        match utf8_text(content.as_slice()) {
            None => Err(LoadError::InvalidUtf8),
            Some(text) => match parse_i32(text) {
                Some(v) => Ok(v),
                None => Err(LoadError::InvalidNumber),
            },
        }
    }

    /// Parses `content` as an `i64`.
    pub fn load_i64(content: &Vec<u8>) -> (r: Result<i64, LoadError>)
        ensures
            match parse_outcome(content@, true, i64::MIN as int, i64::MAX as int) {
                Ok(v) => r is Ok && r->Ok_0 as int == v,
                Err(e) => r == Err::<i64, LoadError>(e),
            },
    {
        match utf8_text(content.as_slice()) {
            None => Err(LoadError::InvalidUtf8),
            Some(text) => match parse_i64(text) {
                Some(v) => Ok(v),
                None => Err(LoadError::InvalidNumber),
            },
        }
    }

    /// Parses `content` as a `u32`.
    pub fn load_u32(content: &Vec<u8>) -> (r: Result<u32, LoadError>)
        ensures
            match parse_outcome(content@, false, 0, u32::MAX as int) {
                Ok(v) => r is Ok && r->Ok_0 as int == v,
                Err(e) => r == Err::<u32, LoadError>(e),
            },
    {
        match utf8_text(content.as_slice()) {
            None => Err(LoadError::InvalidUtf8),
            Some(text) => match parse_u32(text) {
                Some(v) => Ok(v),
                None => Err(LoadError::InvalidNumber),
            },
        }
    }

    /// Parses `content` as a `u64`.
    pub fn load_u64(content: &Vec<u8>) -> (r: Result<u64, LoadError>)
        ensures
            match parse_outcome(content@, false, 0, u64::MAX as int) {
                Ok(v) => r is Ok && r->Ok_0 as int == v,
                Err(e) => r == Err::<u64, LoadError>(e),
            },
    {
        match utf8_text(content.as_slice()) {
            None => Err(LoadError::InvalidUtf8),
            Some(text) => match parse_u64(text) {
                Some(v) => Ok(v),
                None => Err(LoadError::InvalidNumber),
            },
        }
    }
}

impl Loader<i32> for ParseLoader {
    open spec fn loads(content: Seq<u8>, ext: Seq<char>, r: Result<i32, LoadError>) -> bool {
        match parse_outcome(content, true, i32::MIN as int, i32::MAX as int) {
            Ok(v) => r is Ok && r->Ok_0 as int == v,
            Err(e) => r == Err::<i32, LoadError>(e),
        }
    }

    fn load(content: Vec<u8>, _ext: &str) -> Result<i32, LoadError> {
        ParseLoader::load_i32(&content)
    }
}

impl Loader<i64> for ParseLoader {
    open spec fn loads(content: Seq<u8>, ext: Seq<char>, r: Result<i64, LoadError>) -> bool {
        match parse_outcome(content, true, i64::MIN as int, i64::MAX as int) {
            Ok(v) => r is Ok && r->Ok_0 as int == v,
            Err(e) => r == Err::<i64, LoadError>(e),
        }
    }

    fn load(content: Vec<u8>, _ext: &str) -> Result<i64, LoadError> {
        ParseLoader::load_i64(&content)
    }
}

impl Loader<u32> for ParseLoader {
    open spec fn loads(content: Seq<u8>, ext: Seq<char>, r: Result<u32, LoadError>) -> bool {
        match parse_outcome(content, false, 0, u32::MAX as int) {
            Ok(v) => r is Ok && r->Ok_0 as int == v,
            Err(e) => r == Err::<u32, LoadError>(e),
        }
    }

    fn load(content: Vec<u8>, _ext: &str) -> Result<u32, LoadError> {
        ParseLoader::load_u32(&content)
    }
}

impl Loader<u64> for ParseLoader {
    open spec fn loads(content: Seq<u8>, ext: Seq<char>, r: Result<u64, LoadError>) -> bool {
        match parse_outcome(content, false, 0, u64::MAX as int) {
            Ok(v) => r is Ok && r->Ok_0 as int == v,
            Err(e) => r == Err::<u64, LoadError>(e),
        }
    }

    fn load(content: Vec<u8>, _ext: &str) -> Result<u64, LoadError> {
        ParseLoader::load_u64(&content)
    }
}

/// Loads a value of another type with the loader `L`, then converts it.
#[derive(Debug)]
pub struct LoadFrom<U, L>(std::marker::PhantomData<(U, L)>);

impl<T, U, L> Loader<T> for LoadFrom<U, L> where U: Into<T>, L: Loader<U> {
    /// `L`'s failures pass unchanged; a value of `L`'s is converted.
    open spec fn loads(content: Seq<u8>, ext: Seq<char>, r: Result<T, LoadError>) -> bool {
        match r {
            Err(e) => L::loads(content, ext, Err(e)),
            Ok(t) => exists|u: U|
                #[trigger] L::loads(content, ext, Ok(u)) && (U::obeys_into_spec() ==> t == u.into_spec()),
        }
    }

    fn load(content: Vec<u8>, ext: &str) -> Result<T, LoadError> {
        match L::load(content, ext) {
            Ok(u) => Ok(u.into()),
            Err(e) => Err(e),
        }
    }
}

/// Loads with the loader `L`, and falls back to the type's default value
/// where `L` fails.
#[derive(Debug)]
pub struct LoadOrDefault<L>(std::marker::PhantomData<L>);

impl<T, L> Loader<T> for LoadOrDefault<L> where T: Default, L: Loader<T> {
    /// `L`'s values pass unchanged; where `L` fails, a default value stands.
    open spec fn loads(content: Seq<u8>, ext: Seq<char>, r: Result<T, LoadError>) -> bool {
        r is Ok && (L::loads(content, ext, r) || exists|e: LoadError| #[trigger] L::loads(content, ext, Err(e)))
    }

    fn load(content: Vec<u8>, ext: &str) -> Result<T, LoadError> {
        match L::load(content, ext) {
            Ok(v) => Ok(v),
            Err(_) => Ok(T::default()),
        }
    }
}

} // verus!
