//! A source backed by tables built into the program.
use vstd::prelude::*;
use vstd::slice::slice_to_vec;

use crate::error::SourceError;
use crate::cache::{distinct_ids, holds_text, lemma_listed_texts, texts};
use crate::filesystem::{contains_text, ext_listed, same_text};
use crate::source::Source;

verus! {

/// The raw representation of embedded files: a list of files, each with its
/// id, its extension and its content, and a list of directories, each with
/// its id and the leaf ids and extensions of its members.
#[derive(Clone, Copy, Debug)]
pub struct RawEmbedded<'a> {
    /// Files, by id and extension, with their content.
    pub files: &'a [((&'a str, &'a str), &'a [u8])],
    /// Directories, by id, with the files they contain.
    pub dirs: &'a [(&'a str, &'a [(&'a str, &'a str)])],
}

/// A source embedded in the binary, made from a [`RawEmbedded`].
///
/// Where a table names an id twice, the later row counts.
#[derive(Clone, Debug)]
pub struct Embedded<'a> {
    files: &'a [((&'a str, &'a str), &'a [u8])],
    dirs: &'a [(&'a str, &'a [(&'a str, &'a str)])],
}

/// The content of the last row of `files` for `id` and `ext`.
pub open spec fn file_lookup(files: Seq<((&str, &str), &[u8])>, id: Seq<char>, ext: Seq<char>) -> Option<
    Seq<u8>,
>
    decreases files.len(),
{
    if files.len() == 0 {
        None
    } else if files.last().0.0@ == id && files.last().0.1@ == ext {
        Some(files.last().1@)
    } else {
        file_lookup(files.drop_last(), id, ext)
    }
}

/// The members of the last row of `dirs` for `id`.
pub open spec fn dir_lookup<'a>(dirs: Seq<(&'a str, &'a [(&'a str, &'a str)])>, id: Seq<char>) -> Option<
    Seq<(&'a str, &'a str)>,
>
    decreases dirs.len(),
{
    if dirs.len() == 0 {
        None
    } else if dirs.last().0@ == id {
        Some(dirs.last().1@)
    } else {
        dir_lookup(dirs.drop_last(), id)
    }
}

/// The leaf ids of the members whose extension is one of `exts`, in order,
/// each once.
pub open spec fn members_with(members: Seq<(&str, &str)>, exts: Seq<&str>) -> Seq<Seq<char>>
    decreases members.len(),
{
    if members.len() == 0 {
        Seq::empty()
    } else {
        let rest = members_with(members.drop_last(), exts);
        if ext_listed(members.last().1@, exts) && !rest.contains(members.last().0@) {
            rest.push(members.last().0@)
        } else {
            rest
        }
    }
}

/// A listing of an embedded directory gives each leaf id once.
pub proof fn lemma_members_distinct(members: Seq<(&str, &str)>, exts: Seq<&str>)
    ensures
        distinct_ids(members_with(members, exts)),
    decreases members.len(),
{
    if members.len() > 0 {
        lemma_members_distinct(members.drop_last(), exts);
        let rest = members_with(members.drop_last(), exts);
        if ext_listed(members.last().1@, exts) && !rest.contains(members.last().0@) {
            let all = rest.push(members.last().0@);
            assert forall|a: int, b: int| 0 <= a < b < all.len() implies #[trigger] all[a] != #[trigger] all[b] by {
                if b == rest.len() {
                    assert(all[a] == rest[a]);
                }
            }
        }
    }
}

impl<'a> Embedded<'a> {
    /// The file table.
    pub closed spec fn files_spec(&self) -> Seq<((&'a str, &'a str), &'a [u8])> {
        self.files@
    }

    /// The directory table.
    pub closed spec fn dirs_spec(&self) -> Seq<(&'a str, &'a [(&'a str, &'a str)])> {
        self.dirs@
    }

    /// Makes a source of the two tables of `raw`.
    pub fn from(raw: RawEmbedded<'a>) -> (r: Embedded<'a>)
        ensures
            r.files_spec() == raw.files@,
            r.dirs_spec() == raw.dirs@,
    {
        Embedded { files: raw.files, dirs: raw.dirs }
    }

    /// The content of the file `id` with extension `ext`, if the table has it.
    pub fn read_file(&self, id: &str, ext: &str) -> (r: Option<&'a [u8]>)
        ensures
            match r {
                Some(b) => file_lookup(self.files_spec(), id@, ext@) == Some(b@),
                None => file_lookup(self.files_spec(), id@, ext@) is None,
            },
    {
        let mut i: usize = self.files.len();
        assert(self.files@.subrange(0, i as int) =~= self.files@);
        while i > 0
            invariant
                i <= self.files@.len(),
                file_lookup(self.files@, id@, ext@) == file_lookup(
                    self.files@.subrange(0, i as int),
                    id@,
                    ext@,
                ),
            decreases i,
        {
            let row = self.files[i - 1];
            assert(self.files@.subrange(0, i as int).drop_last() =~= self.files@.subrange(
                0,
                i - 1,
            ));
            if same_text(row.0.0, id) && same_text(row.0.1, ext) {
                return Some(row.1);
            }
            i = i - 1;
        }
        None
    }

    /// The members of directory `id`, if the table has it.
    fn find_dir(&self, id: &str) -> (r: Option<&'a [(&'a str, &'a str)]>)
        ensures
            match r {
                Some(m) => dir_lookup(self.dirs_spec(), id@) == Some(m@),
                None => dir_lookup(self.dirs_spec(), id@) is None,
            },
    {
        let mut i: usize = self.dirs.len();
        assert(self.dirs@.subrange(0, i as int) =~= self.dirs@);
        while i > 0
            invariant
                i <= self.dirs@.len(),
                dir_lookup(self.dirs@, id@) == dir_lookup(self.dirs@.subrange(0, i as int), id@),
            decreases i,
        {
            let row = self.dirs[i - 1];
            assert(self.dirs@.subrange(0, i as int).drop_last() =~= self.dirs@.subrange(0, i - 1));
            if same_text(row.0, id) {
                return Some(row.1);
            }
            i = i - 1;
        }
        None
    }

    /// The leaf ids of the members of directory `id` whose extension is one
    /// of `exts`, in the order of the table, if the table has the directory.
    pub fn list_dir(&self, id: &str, exts: &[&str]) -> (r: Option<Vec<String>>)
        ensures
            match dir_lookup(self.dirs_spec(), id@) {
                None => r is None,
                Some(m) => r is Some && texts(r->Some_0@) == members_with(m, exts@),
            },
    {
        let members = match self.find_dir(id) {
            None => return None,
            Some(m) => m,
        };
        let mut out: Vec<String> = Vec::new();
        let mut i: usize = 0;
        while i < members.len()
            invariant
                i <= members@.len(),
                texts(out@) == members_with(members@.subrange(0, i as int), exts@),
            decreases members@.len() - i,
        {
            let m = members[i];
            assert(members@.subrange(0, i + 1).drop_last() =~= members@.subrange(0, i as int));
            assert(members@.subrange(0, i + 1).last() == members@[i as int]);
            proof {
                lemma_listed_texts(out@, m.0@);
            }
            if contains_text(exts, m.1) && !holds_text(&out, m.0) {
                let ghost prev = out@;
                out.push(m.0.to_owned());
                assert(texts(out@) =~= texts(prev).push(out@[out@.len() - 1]@));
            }
            i = i + 1;
        }
        assert(members@.subrange(0, members@.len() as int) =~= members@);
        Some(out)
    }
}

impl<'a> Source for Embedded<'a> {
    fn read(&self, id: &str, ext: &str) -> (r: Result<Vec<u8>, SourceError>)
        ensures
            match file_lookup(self.files_spec(), id@, ext@) {
                Some(b) => r is Ok && r->Ok_0@ == b,
                None => r == Err::<Vec<u8>, SourceError>(SourceError::NotFound),
            },
    {
        match self.read_file(id, ext) {
            Some(content) => Ok(slice_to_vec(content)),
            None => Err(SourceError::NotFound),
        }
    }

    fn read_dir(&self, id: &str, exts: &[&str]) -> (r: Result<Vec<String>, SourceError>)
        ensures
            match dir_lookup(self.dirs_spec(), id@) {
                Some(m) => r is Ok && texts(r->Ok_0@) == members_with(m, exts@) && distinct_ids(
                    texts(r->Ok_0@),
                ),
                None => r == Err::<Vec<String>, SourceError>(SourceError::NotFound),
            },
    {
        match self.list_dir(id, exts) {
            Some(children) => {
                proof {
                    lemma_members_distinct(dir_lookup(self.dirs_spec(), id@)->Some_0, exts@);
                }
                Ok(children)
            },
            None => Err(SourceError::NotFound),
        }
    }
}

} // verus!
