//! Path arithmetic of the file system source: how an id and an extension
//! name a file under the root, and which directory members a listing keeps.
use vstd::prelude::*;

use crate::cache::{distinct_ids, holds_text, lemma_listed_texts, listed, texts};
use crate::error::SourceError;

verus! {

/// Index of the last `'.'` in `s`, or -1 when there is none.
pub open spec fn last_dot(s: Seq<char>) -> int
    decreases s.len(),
{
    if s.len() == 0 {
        -1
    } else if s.last() == '.' {
        s.len() - 1
    } else {
        last_dot(s.drop_last())
    }
}

/// Extension of a file name: what follows its last dot, or nothing when the
/// name has no dot or its only dot is the leading one.
pub open spec fn extension_spec(name: Seq<char>) -> Seq<char> {
    let k = last_dot(name);
    if k <= 0 {
        Seq::empty()
    } else {
        name.subrange(k + 1, name.len() as int)
    }
}

/// Stem of a file name: the name without its extension and the dot before it.
pub open spec fn stem_spec(name: Seq<char>) -> Seq<char> {
    let k = last_dot(name);
    if k <= 0 {
        name
    } else {
        name.subrange(0, k)
    }
}

proof fn lemma_last_dot_range(s: Seq<char>)
    ensures
        -1 <= last_dot(s) < s.len(),
        last_dot(s) >= 0 ==> s[last_dot(s)] == '.',
    decreases s.len(),
{
    if s.len() > 0 && s.last() != '.' {
        lemma_last_dot_range(s.drop_last());
    }
}

proof fn lemma_last_dot_step(s: Seq<char>, i: int)
    requires
        0 <= i < s.len(),
    ensures
        last_dot(s.subrange(0, i + 1)) == if s[i] == '.' {
            i
        } else {
            last_dot(s.subrange(0, i))
        },
{
    assert(s.subrange(0, i + 1).drop_last() =~= s.subrange(0, i));
}

/// Position of the last dot of `name`, found by one pass over its characters.
fn find_last_dot(name: &str) -> (r: Option<usize>)
    ensures
        name@.len() <= usize::MAX,
        -1 <= last_dot(name@) < name@.len(),
        last_dot(name@) >= 0 ==> name@[last_dot(name@)] == '.',
        r == (if last_dot(name@) < 0 {
            None
        } else {
            Some(last_dot(name@) as usize)
        }),
{
    let n = name.unicode_len();
    let mut k: Option<usize> = None;
    let mut i: usize = 0;
    while i < n
        invariant
            n == name@.len(),
            i <= n,
            k == (if last_dot(name@.subrange(0, i as int)) < 0 {
                None
            } else {
                Some(last_dot(name@.subrange(0, i as int)) as usize)
            }),
        decreases n - i,
    {
        proof {
            lemma_last_dot_step(name@, i as int);
            lemma_last_dot_range(name@.subrange(0, i as int));
        }
        if name.get_char(i) == '.' {
            k = Some(i);
        }
        i = i + 1;
    }
    assert(name@.subrange(0, n as int) =~= name@);
    proof {
        lemma_last_dot_range(name@);
    }
    k
}

/// Returns the extension of a file name, or the empty string if it has none.
pub fn extension_of(name: &str) -> (r: String)
    ensures
        r@ == extension_spec(name@),
{
    match find_last_dot(name) {
        Some(k) if k > 0 => name.substring_char(k + 1, name.unicode_len()).to_owned(),
        _ => String::new(),
    }
}

/// Returns the name of a file without its extension.
pub fn file_stem(name: &str) -> (r: String)
    ensures
        r@ == stem_spec(name@),
{
    match find_last_dot(name) {
        Some(k) if k > 0 => name.substring_char(0, k).to_owned(),
        _ => name.to_owned(),
    }
}

/// Whether two strings hold the same characters.
pub fn same_text(a: &str, b: &str) -> (r: bool)
    ensures
        r == (a@ == b@),
{
    let n = a.unicode_len();
    if n != b.unicode_len() {
        return false;
    }
    let mut i: usize = 0;
    while i < n
        invariant
            n == a@.len(),
            n == b@.len(),
            i <= n,
            a@.subrange(0, i as int) == b@.subrange(0, i as int),
        decreases n - i,
    {
        if a.get_char(i) != b.get_char(i) {
            assert(a@[i as int] != b@[i as int]);
            return false;
        }
        assert(a@.subrange(0, i + 1) =~= a@.subrange(0, i as int).push(a@[i as int]));
        assert(b@.subrange(0, i + 1) =~= b@.subrange(0, i as int).push(b@[i as int]));
        i = i + 1;
    }
    assert(a@ =~= a@.subrange(0, n as int));
    assert(b@ =~= b@.subrange(0, n as int));
    true
}

/// Whether `ext` is one of `exts`.
pub open spec fn ext_listed(ext: Seq<char>, exts: Seq<&str>) -> bool {
    exists|i: int| 0 <= i < exts.len() && #[trigger] exts[i]@ == ext
}

/// Whether `ext` is one of `exts`.
pub fn contains_text(exts: &[&str], ext: &str) -> (r: bool)
    ensures
        r == ext_listed(ext@, exts@),
{
    let mut i: usize = 0;
    while i < exts.len()
        invariant
            i <= exts@.len(),
            forall|j: int| 0 <= j < i ==> exts@[j]@ != ext@,
        decreases exts@.len() - i,
    {
        if same_text(exts[i], ext) {
            return true;
        }
        i = i + 1;
    }
    false
}

/// Whether the extension of the file name `name` is one of `exts`.
pub fn has_extension(name: &str, exts: &[&str]) -> (r: bool)
    ensures
        r == ext_listed(extension_spec(name@), exts@),
{
    let ext = extension_of(name);
    contains_text(exts, ext.as_str())
}

/// An id with each dot turned into a path separator.
pub open spec fn dots_to_slashes(id: Seq<char>) -> Seq<char> {
    id.map_values(|c: char| if c == '.' { '/' } else { c })
}

/// The path that names the file `id` with extension `ext` under `root`; an
/// empty extension names the bare path, as for a directory.
pub open spec fn path_spec(root: Seq<char>, id: Seq<char>, ext: Seq<char>) -> Seq<char> {
    let base = root + seq!['/'] + dots_to_slashes(id);
    if ext.len() == 0 {
        base
    } else {
        base + seq!['.'] + ext
    }
}

/// Whether `c` may stand in a segment of an id.
pub open spec fn is_segment_char(c: char) -> bool {
    ('a' <= c && c <= 'z') || ('A' <= c && c <= 'Z') || ('0' <= c && c <= '9') || c == '_' || c == '-'
}

/// Whether `id` is made of non-empty segments of letters, digits, `_` and
/// `-`, separated by single dots.
pub open spec fn valid_id(id: Seq<char>) -> bool {
    &&& id.len() > 0
    &&& id[0] != '.'
    &&& id[id.len() - 1] != '.'
    &&& forall|i: int| 0 <= i < id.len() ==> is_segment_char(#[trigger] id[i]) || id[i] == '.'
    &&& forall|i: int| 0 <= i < id.len() - 1 && #[trigger] id[i] == '.' ==> id[i + 1] != '.'
}

/// Whether `ext` is made of the characters an id segment may hold.
pub fn is_valid_ext(ext: &str) -> (r: bool)
    ensures
        r == valid_ext(ext@),
{
    let n = ext.unicode_len();
    let mut i: usize = 0;
    while i < n
        invariant
            n == ext@.len(),
            i <= n,
            forall|a: int| 0 <= a < i ==> is_segment_char(#[trigger] ext@[a]),
        decreases n - i,
    {
        let c = ext.get_char(i);
        if !(('a' <= c && c <= 'z') || ('A' <= c && c <= 'Z') || ('0' <= c && c <= '9') || c == '_'
            || c == '-') {
            return false;
        }
        i = i + 1;
    }
    true
}

/// Whether `id` follows the id grammar; other ids name nothing.
pub fn is_valid_id(id: &str) -> (r: bool)
    ensures
        r == valid_id(id@),
{
    let n = id.unicode_len();
    if n == 0 {
        return false;
    }
    let mut i: usize = 0;
    let mut prev_dot = true;
    while i < n
        invariant
            n == id@.len(),
            n > 0,
            i <= n,
            i > 0 ==> prev_dot == (id@[i - 1] == '.'),
            i == 0 ==> prev_dot,
            i > 0 ==> id@[0] != '.',
            forall|a: int| 0 <= a < i ==> is_segment_char(#[trigger] id@[a]) || id@[a] == '.',
            forall|a: int| 0 <= a < i - 1 && #[trigger] id@[a] == '.' ==> id@[a + 1] != '.',
        decreases n - i,
    {
        let c = id.get_char(i);
        if c == '.' {
            if prev_dot {
                return false;
            }
            prev_dot = true;
        } else if ('a' <= c && c <= 'z') || ('A' <= c && c <= 'Z') || ('0' <= c && c <= '9') || c == '_'
            || c == '-' {
            prev_dot = false;
        } else {
            return false;
        }
        i = i + 1;
    }
    !prev_dot
}

/// A path below a root with each separator turned into a dot.
pub open spec fn slashes_to_dots(s: Seq<char>) -> Seq<char> {
    s.map_values(|c: char| if c == '/' { '.' } else { c })
}

/// Whether `c` does not occur in `s`.
pub open spec fn lacks(s: Seq<char>, c: char) -> bool {
    forall|i: int| 0 <= i < s.len() ==> #[trigger] s[i] != c
}

/// The id and extension of the file at `path` under `root`, where the path
/// names one; the inverse of `path_spec`.
pub open spec fn id_of_spec(root: Seq<char>, path: Seq<char>) -> Option<(Seq<char>, Seq<char>)> {
    let prefix = root + seq!['/'];
    if path.len() < prefix.len() || path.subrange(0, prefix.len() as int) != prefix {
        None
    } else {
        let rest = path.subrange(prefix.len() as int, path.len() as int);
        let k = last_dot(rest);
        let stem = if k < 0 {
            rest
        } else {
            rest.subrange(0, k)
        };
        let ext = if k < 0 {
            Seq::empty()
        } else {
            rest.subrange(k + 1, rest.len() as int)
        };
        if lacks(stem, '.') && valid_id(slashes_to_dots(stem)) && lacks(ext, '/') && (k >= 0
            ==> ext.len() > 0) {
            Some((slashes_to_dots(stem), ext))
        } else {
            None
        }
    }
}

/// Whether an extension is made of the characters an id segment may hold.
pub open spec fn valid_ext(ext: Seq<char>) -> bool {
    forall|i: int| 0 <= i < ext.len() ==> is_segment_char(#[trigger] ext[i])
}

proof fn lemma_last_dot_none(s: Seq<char>)
    requires
        lacks(s, '.'),
    ensures
        last_dot(s) == -1,
    decreases s.len(),
{
    if s.len() > 0 {
        assert(s.last() == s[s.len() - 1]);
        lemma_last_dot_none(s.drop_last());
    }
}

proof fn lemma_last_dot_join(a: Seq<char>, t: Seq<char>)
    requires
        lacks(t, '.'),
    ensures
        last_dot(a + seq!['.'] + t) == a.len(),
    decreases t.len(),
{
    let s = a + seq!['.'] + t;
    if t.len() == 0 {
        assert(s.last() == '.');
    } else {
        assert(s.last() == t[t.len() - 1]);
        assert(s.drop_last() =~= a + seq!['.'] + t.drop_last());
        lemma_last_dot_join(a, t.drop_last());
    }
}

/// A file's path under a root gives back the id and extension it was made
/// of, for every id of the id grammar and every extension of segment
/// characters.
pub proof fn lemma_id_of_path_of(root: Seq<char>, id: Seq<char>, ext: Seq<char>)
    requires
        valid_id(id),
        valid_ext(ext),
    ensures
        id_of_spec(root, path_spec(root, id, ext)) == Some((id, ext)),
{
    let prefix = root + seq!['/'];
    let body = dots_to_slashes(id);
    let path = path_spec(root, id, ext);
    let rest = if ext.len() == 0 {
        body
    } else {
        body + seq!['.'] + ext
    };
    assert(path =~= prefix + rest);
    assert(path.subrange(0, prefix.len() as int) =~= prefix);
    assert(path.subrange(prefix.len() as int, path.len() as int) =~= rest);
    assert(lacks(body, '.'));
    assert(lacks(ext, '.'));
    assert(lacks(ext, '/'));
    assert(slashes_to_dots(body) =~= id);
    if ext.len() == 0 {
        lemma_last_dot_none(body);
    } else {
        lemma_last_dot_join(body, ext);
        assert(rest.subrange(0, body.len() as int) =~= body);
        assert(rest.subrange(body.len() + 1 as int, rest.len() as int) =~= ext);
    }
}

/// Whether `c` does not occur in `s`.
fn lacks_char(s: &str, c: char) -> (r: bool)
    ensures
        r == lacks(s@, c),
{
    let n = s.unicode_len();
    let mut i: usize = 0;
    while i < n
        invariant
            n == s@.len(),
            i <= n,
            forall|a: int| 0 <= a < i ==> #[trigger] s@[a] != c,
        decreases n - i,
    {
        if s.get_char(i) == c {
            return false;
        }
        i = i + 1;
    }
    true
}

/// `s` with each separator turned into a dot.
fn separators_to_dots(s: &str) -> (r: String)
    ensures
        r@ == slashes_to_dots(s@),
{
    let mut out = String::new();
    let n = s.unicode_len();
    let mut i: usize = 0;
    while i < n
        invariant
            n == s@.len(),
            i <= n,
            out@ == slashes_to_dots(s@.subrange(0, i as int)),
        decreases n - i,
    {
        let c = s.get_char(i);
        if c == '/' {
            out.append(".");
            proof {
                reveal_strlit(".");
            }
        } else {
            out.append(s.substring_char(i, i + 1));
        }
        assert(slashes_to_dots(s@.subrange(0, i + 1)) =~= slashes_to_dots(s@.subrange(0, i as int)).push(
            if c == '/' { '.' } else { c },
        ));
        i = i + 1;
    }
    assert(s@.subrange(0, n as int) =~= s@);
    out
}

/// A member of a listed directory, as the file system reported it.
#[derive(Clone, Debug)]
pub struct DirEntry {
    /// The member's file name.
    pub name: String,
    /// Whether the member is a regular file.
    pub is_file: bool,
}

/// Whether a listing keeps the member `e` when asked for the extensions `exts`.
pub open spec fn kept(e: DirEntry, exts: Seq<&str>) -> bool {
    e.is_file && ext_listed(extension_spec(e.name@), exts)
}

/// The leaf ids a listing gives for `entries`: the stems of the kept
/// members, in order, leaving out stems with a dot (they are no leaf ids)
/// and stems already given.
pub open spec fn children_spec(entries: Seq<DirEntry>, exts: Seq<&str>) -> Seq<Seq<char>>
    decreases entries.len(),
{
    if entries.len() == 0 {
        Seq::empty()
    } else {
        let rest = children_spec(entries.drop_last(), exts);
        let stem = stem_spec(entries.last().name@);
        if kept(entries.last(), exts) && lacks(stem, '.') && !rest.contains(stem) {
            rest.push(stem)
        } else {
            rest
        }
    }
}

/// A listing gives each leaf id once, and none holds a dot.
pub proof fn lemma_children_leaves(entries: Seq<DirEntry>, exts: Seq<&str>)
    ensures
        distinct_ids(children_spec(entries, exts)),
        forall|i: int|
            0 <= i < children_spec(entries, exts).len() ==> lacks(
                #[trigger] children_spec(entries, exts)[i],
                '.',
            ),
    decreases entries.len(),
{
    if entries.len() > 0 {
        lemma_children_leaves(entries.drop_last(), exts);
        let rest = children_spec(entries.drop_last(), exts);
        let stem = stem_spec(entries.last().name@);
        if kept(entries.last(), exts) && lacks(stem, '.') && !rest.contains(stem) {
            let all = rest.push(stem);
            assert forall|a: int, b: int| 0 <= a < b < all.len() implies #[trigger] all[a] != #[trigger] all[b] by {
                if b == rest.len() {
                    assert(all[a] == rest[a]);
                }
            }
        }
    }
}

/// A source that reads assets from a directory of the file system.
///
/// The value holds the canonical path of the root directory; reading the
/// files themselves is left to the caller, which hands the results back.
#[derive(Clone, Debug)]
pub struct FileSystem {
    path: String,
    hot_reloading: bool,
}

impl FileSystem {
    /// The canonical path of the root directory.
    pub closed spec fn root_spec(&self) -> Seq<char> {
        self.path@
    }

    /// Whether changes under the root are to be watched.
    pub closed spec fn reloading_spec(&self) -> bool {
        self.hot_reloading
    }

    /// Opens a root directory, given what canonicalizing its path and listing
    /// it gave: the first failure is returned, else the source is made.
    pub fn new(canonical: Result<String, SourceError>, listing: Result<(), SourceError>) -> (r:
        Result<FileSystem, SourceError>)
        ensures
            match canonical {
                Err(e) => r == Err::<FileSystem, SourceError>(e),
                Ok(p) => match listing {
                    Err(e) => r == Err::<FileSystem, SourceError>(e),
                    Ok(_) => r is Ok && r->Ok_0.root_spec() == p@ && r->Ok_0.reloading_spec(),
                },
            },
    {
        Self::open(canonical, listing, true)
    }

    /// Same as `new`, but the source does not ask for changes to be watched.
    pub fn without_hot_reloading(
        canonical: Result<String, SourceError>,
        listing: Result<(), SourceError>,
    ) -> (r: Result<FileSystem, SourceError>)
        ensures
            match canonical {
                Err(e) => r == Err::<FileSystem, SourceError>(e),
                Ok(p) => match listing {
                    Err(e) => r == Err::<FileSystem, SourceError>(e),
                    Ok(_) => r is Ok && r->Ok_0.root_spec() == p@ && !r->Ok_0.reloading_spec(),
                },
            },
    {
        Self::open(canonical, listing, false)
    }

    fn open(
        canonical: Result<String, SourceError>,
        listing: Result<(), SourceError>,
        hot_reloading: bool,
    ) -> (r: Result<FileSystem, SourceError>)
        ensures
            match canonical {
                Err(e) => r == Err::<FileSystem, SourceError>(e),
                Ok(p) => match listing {
                    Err(e) => r == Err::<FileSystem, SourceError>(e),
                    Ok(_) => r is Ok && r->Ok_0.root_spec() == p@ && r->Ok_0.reloading_spec()
                        == hot_reloading,
                },
            },
    {
        let path = match canonical {
            Err(e) => return Err(e),
            Ok(p) => p,
        };
        match listing {
            Err(e) => Err(e),
            Ok(()) => Ok(FileSystem { path, hot_reloading }),
        }
    }

    /// Gets the path of the source's root.
    pub fn root(&self) -> (r: &str)
        ensures
            r@ == self.root_spec(),
    {
        self.path.as_str()
    }

    /// Whether this source asks for changes under its root to be watched.
    pub fn supports_hot_reload(&self) -> (r: bool)
        ensures
            r == self.reloading_spec(),
    {
        self.hot_reloading
    }

    /// Returns the path of the (eventual) file represented by an id and an
    /// extension.
    pub fn path_of(&self, id: &str, ext: &str) -> (r: String)
        ensures
            r@ == path_spec(self.root_spec(), id@, ext@),
    {
        let mut path = self.path.clone();
        assert(path@ == self.path@);
        path.append("/");
        proof {
            reveal_strlit("/");
        }
        let n = id.unicode_len();
        let mut i: usize = 0;
        while i < n
            invariant
                n == id@.len(),
                i <= n,
                path@ == self.path@ + seq!['/'] + dots_to_slashes(id@.subrange(0, i as int)),
            decreases n - i,
        {
            let c = id.get_char(i);
            if c == '.' {
                path.append("/");
                proof {
                    reveal_strlit("/");
                }
            } else {
                path.append(id.substring_char(i, i + 1));
            }
            assert(dots_to_slashes(id@.subrange(0, i + 1)) =~= dots_to_slashes(
                id@.subrange(0, i as int),
            ).push(if c == '.' { '/' } else { c }));
            i = i + 1;
        }
        assert(id@.subrange(0, n as int) =~= id@);
        if ext.unicode_len() > 0 {
            path.append(".");
            path.append(ext);
            proof {
                reveal_strlit(".");
            }
            assert(path@ =~= path_spec(self.root_spec(), id@, ext@));
        }
        path
    }

    /// The id and extension of the file at `path`, if the path lies under
    /// the root and names a file the way `path_of` does.
    pub fn id_of_path(&self, path: &str) -> (r: Option<(String, String)>)
        ensures
            match id_of_spec(self.root_spec(), path@) {
                None => r is None,
                Some(found) => r is Some && r->Some_0.0@ == found.0 && r->Some_0.1@ == found.1,
            },
    {
        let rn = self.path.unicode_len();
        let pn = path.unicode_len();
        let ghost prefix = self.path@ + seq!['/'];
        if pn <= rn {
            return None;
        }
        let head = path.substring_char(0, rn);
        if !same_text(head, self.path.as_str()) || path.get_char(rn) != '/' {
            proof {
                if path@.subrange(0, prefix.len() as int) == prefix {
                    assert forall|i: int| 0 <= i < rn implies head@[i] == self.path@[i] by {
                        assert(path@.subrange(0, prefix.len() as int)[i] == prefix[i]);
                    }
                    assert(head@ =~= self.path@);
                    assert(path@.subrange(0, prefix.len() as int)[rn as int] == prefix[rn as int]);
                }
            }
            return None;
        }
        assert(path@.subrange(0, prefix.len() as int) =~= prefix);
        let rest = path.substring_char(rn + 1, pn);
        assert(rest@ == path@.subrange(prefix.len() as int, path@.len() as int));
        let ghost k = last_dot(rest@);
        let ghost stem_v = if k < 0 {
            rest@
        } else {
            rest@.subrange(0, k)
        };
        let ghost ext_v = if k < 0 {
            Seq::<char>::empty()
        } else {
            rest@.subrange(k + 1, rest@.len() as int)
        };
        let (stem, ext) = match find_last_dot(rest) {
            None => (rest.to_owned(), String::new()),
            Some(k) => (rest.substring_char(0, k).to_owned(), rest.substring_char(k + 1, rest.unicode_len()).to_owned()),
        };
        assert(stem@ == stem_v && ext@ == ext_v);
        if !lacks_char(stem.as_str(), '.') || !lacks_char(ext.as_str(), '/') {
            return None;
        }
        let dotted = match find_last_dot(rest) {
            Some(_) => ext.unicode_len() > 0,
            None => true,
        };
        if !dotted {
            return None;
        }
        let id = separators_to_dots(stem.as_str());
        if !is_valid_id(id.as_str()) {
            return None;
        }
        Some((id, ext))
    }

    /// The path of the file `id` with extension `ext`, if `id` follows the
    /// id grammar.
    pub fn file_path(&self, id: &str, ext: &str) -> (r: Option<String>)
        ensures
            valid_id(id@) && valid_ext(ext@) ==> r is Some && r->Some_0@ == path_spec(
                self.root_spec(),
                id@,
                ext@,
            ),
            !(valid_id(id@) && valid_ext(ext@)) ==> r is None,
    {
        if is_valid_id(id) && is_valid_ext(ext) {
            Some(self.path_of(id, ext))
        } else {
            None
        }
    }

    /// Keeps, of the members of a directory, the stems of the files whose
    /// extension is one of `exts`, in the order of the listing.
    pub fn select_children(entries: &Vec<DirEntry>, exts: &[&str]) -> (r: Vec<String>)
        ensures
            texts(r@) == children_spec(entries@, exts@),
            distinct_ids(texts(r@)),
            forall|i: int| 0 <= i < r@.len() ==> lacks(#[trigger] r@[i]@, '.'),
    {
        let mut out: Vec<String> = Vec::new();
        let mut i: usize = 0;
        while i < entries.len()
            invariant
                i <= entries@.len(),
                texts(out@) == children_spec(entries@.subrange(0, i as int), exts@),
            decreases entries@.len() - i,
        {
            let e = &entries[i];
            assert(entries@.subrange(0, i + 1).drop_last() =~= entries@.subrange(0, i as int));
            assert(entries@.subrange(0, i + 1).last() == entries@[i as int]);
            if e.is_file && has_extension(e.name.as_str(), exts) {
                let stem = file_stem(e.name.as_str());
                proof {
                    lemma_listed_texts(out@, stem@);
                }
                if lacks_char(stem.as_str(), '.') && !holds_text(&out, stem.as_str()) {
                    let ghost prev = out@;
                    out.push(stem);
                    assert(texts(out@) =~= texts(prev).push(out@[out@.len() - 1]@));
                }
            }
            i = i + 1;
        }
        assert(entries@.subrange(0, entries@.len() as int) =~= entries@);
        proof {
            lemma_children_leaves(entries@, exts@);
            assert forall|i: int| 0 <= i < out@.len() implies lacks(#[trigger] out@[i]@, '.') by {
                assert(texts(out@)[i] == out@[i]@);
            }
        }
        out
    }
}

} // verus!
