//! The asset cache: a table of entries keyed by id, filled from a source.
use vstd::prelude::*;

use crate::entry::{AssetRefLock, CacheEntry};
use crate::error::{Error, LoadError, SourceError};
use crate::filesystem::{contains_text, same_text};
use crate::loader::Loader;
use crate::reload::DepsRecord;
use crate::source::Source;

verus! {

/// A type that can be loaded into a cache.
pub trait Asset: Sized {
    /// The loader that turns a file's bytes into a value.
    type Loader: Loader<Self>;

    /// The extensions a file of this asset may have, in the order they are
    /// tried.
    fn extensions() -> &'static [&'static str];
}

/// A row of the table: an id and its entry.
pub type Row<A> = (String, CacheEntry<A>);

/// Whether no id stands twice in `rows`.
pub open spec fn ids_unique<A>(rows: Seq<Row<A>>) -> bool {
    forall|i: int, j: int|
        0 <= i < rows.len() && 0 <= j < rows.len() && i != j ==> #[trigger] rows[i].0@
            != #[trigger] rows[j].0@
}

/// Whether no entry identity stands twice in `rows`.
pub open spec fn idents_unique<A>(rows: Seq<Row<A>>) -> bool {
    forall|i: int, j: int|
        0 <= i < rows.len() && 0 <= j < rows.len() && i != j ==> #[trigger] rows[i].1.ident()
            != #[trigger] rows[j].1.ident()
}

/// Whether some row of `rows` has the id `k`.
pub open spec fn has_id<A>(rows: Seq<Row<A>>, k: Seq<char>) -> bool {
    exists|i: int| 0 <= i < rows.len() && #[trigger] rows[i].0@ == k
}

/// The table as a map from id to the identity and value of its entry.
pub open spec fn table_view<A>(rows: Seq<Row<A>>) -> Map<Seq<char>, (u64, A)> {
    Map::new(
        |k: Seq<char>| has_id(rows, k),
        |k: Seq<char>|
            {
                let i = choose|i: int| 0 <= i < rows.len() && #[trigger] rows[i].0@ == k;
                (rows[i].1.ident(), rows[i].1.value_spec())
            },
    )
}

proof fn lemma_view_at<A>(rows: Seq<Row<A>>, i: int)
    requires
        ids_unique(rows),
        0 <= i < rows.len(),
    ensures
        table_view(rows).contains_key(rows[i].0@),
        table_view(rows)[rows[i].0@] == (rows[i].1.ident(), rows[i].1.value_spec()),
{
    let k = rows[i].0@;
    assert(has_id(rows, k));
    let j = choose|j: int| 0 <= j < rows.len() && #[trigger] rows[j].0@ == k;
    assert(j == i);
}

proof fn lemma_view_push<A>(rows: Seq<Row<A>>, row: Row<A>)
    requires
        ids_unique(rows),
        !has_id(rows, row.0@),
    ensures
        ids_unique(rows.push(row)),
        table_view(rows.push(row)) =~= table_view(rows).insert(
            row.0@,
            (row.1.ident(), row.1.value_spec()),
        ),
{
    let s = rows.push(row);
    assert forall|i: int, j: int|
        0 <= i < s.len() && 0 <= j < s.len() && i != j implies #[trigger] s[i].0@ != #[trigger] s[j].0@ by {
        if i == rows.len() as int {
            assert(rows[j] == s[j]);
        } else if j == rows.len() as int {
            assert(rows[i] == s[i]);
        } else {
            assert(rows[i] == s[i] && rows[j] == s[j]);
        }
    }
    lemma_view_at(s, rows.len() as int);
    assert forall|k: Seq<char>| k != row.0@ implies (has_id(s, k) == has_id(rows, k)) by {
        if has_id(s, k) {
            let i = choose|i: int| 0 <= i < s.len() && #[trigger] s[i].0@ == k;
            assert(rows[i] == s[i]);
        }
        if has_id(rows, k) {
            let i = choose|i: int| 0 <= i < rows.len() && #[trigger] rows[i].0@ == k;
            assert(rows[i] == s[i]);
        }
    }
    assert forall|k: Seq<char>| #[trigger] has_id(rows, k) && k != row.0@ implies table_view(s)[k]
        == table_view(rows)[k] by {
        let i = choose|i: int| 0 <= i < rows.len() && #[trigger] rows[i].0@ == k;
        assert(rows[i] == s[i]);
        lemma_view_at(rows, i);
        lemma_view_at(s, i);
    }
}

proof fn lemma_view_update<A>(rows: Seq<Row<A>>, i: int, row: Row<A>)
    requires
        ids_unique(rows),
        0 <= i < rows.len(),
        row.0@ == rows[i].0@,
    ensures
        ids_unique(rows.update(i, row)),
        table_view(rows.update(i, row)) =~= table_view(rows).insert(
            row.0@,
            (row.1.ident(), row.1.value_spec()),
        ),
{
    let s = rows.update(i, row);
    assert forall|a: int, b: int|
        0 <= a < s.len() && 0 <= b < s.len() && a != b implies #[trigger] s[a].0@ != #[trigger] s[b].0@ by {
        assert(s[a].0@ == rows[a].0@ && s[b].0@ == rows[b].0@);
    }
    lemma_view_at(s, i);
    assert forall|k: Seq<char>| has_id(s, k) == has_id(rows, k) by {
        if has_id(s, k) {
            let j = choose|j: int| 0 <= j < s.len() && #[trigger] s[j].0@ == k;
            assert(rows[j].0@ == k);
        }
        if has_id(rows, k) {
            let j = choose|j: int| 0 <= j < rows.len() && #[trigger] rows[j].0@ == k;
            assert(s[j].0@ == k);
        }
    }
    assert forall|k: Seq<char>| #[trigger] has_id(rows, k) && k != row.0@ implies table_view(s)[k]
        == table_view(rows)[k] by {
        let j = choose|j: int| 0 <= j < rows.len() && #[trigger] rows[j].0@ == k;
        assert(j != i);
        assert(rows[j] == s[j]);
        lemma_view_at(rows, j);
        lemma_view_at(s, j);
    }
}

proof fn lemma_view_remove<A>(rows: Seq<Row<A>>, i: int)
    requires
        ids_unique(rows),
        0 <= i < rows.len(),
    ensures
        ids_unique(rows.remove(i)),
        table_view(rows.remove(i)) =~= table_view(rows).remove(rows[i].0@),
        forall|j: int|
            0 <= j < rows.remove(i).len() ==> #[trigger] rows.remove(i)[j] == (if j < i {
                rows[j]
            } else {
                rows[j + 1]
            }),
{
    let s = rows.remove(i);
    assert forall|j: int| 0 <= j < s.len() implies #[trigger] s[j] == (if j < i {
        rows[j]
    } else {
        rows[j + 1]
    }) by {}
    assert forall|a: int, b: int|
        0 <= a < s.len() && 0 <= b < s.len() && a != b implies #[trigger] s[a].0@ != #[trigger] s[b].0@ by {
        let a2 = if a < i { a } else { a + 1 };
        let b2 = if b < i { b } else { b + 1 };
        assert(s[a] == rows[a2] && s[b] == rows[b2]);
    }
    let key = rows[i].0@;
    assert forall|k: Seq<char>| has_id(s, k) == (has_id(rows, k) && k != key) by {
        if has_id(s, k) {
            let j = choose|j: int| 0 <= j < s.len() && #[trigger] s[j].0@ == k;
            let j2 = if j < i { j } else { j + 1 };
            assert(rows[j2].0@ == k);
        }
        if has_id(rows, k) && k != key {
            let j = choose|j: int| 0 <= j < rows.len() && #[trigger] rows[j].0@ == k;
            assert(j != i);
            let j2 = if j < i { j } else { j - 1 };
            assert(s[j2].0@ == k);
        }
    }
    assert forall|k: Seq<char>| #[trigger] has_id(s, k) implies table_view(s)[k]
        == table_view(rows)[k] by {
        let j = choose|j: int| 0 <= j < s.len() && #[trigger] s[j].0@ == k;
        let j2 = if j < i { j } else { j + 1 };
        lemma_view_at(s, j);
        lemma_view_at(rows, j2);
    }
}

/// Whether `rows` is a consistent table whose identities are all below
/// `next`.
pub open spec fn table_ok<A>(rows: Seq<Row<A>>, next: u64) -> bool {
    &&& ids_unique(rows)
    &&& idents_unique(rows)
    &&& forall|i: int| 0 <= i < rows.len() ==> #[trigger] rows[i].1.ident() < next
}

/// A cache of assets of type `A`, read from the source `S`.
///
/// Each id has at most one entry. An entry keeps its identity while it is
/// overwritten in place; a removed entry's identity is never given out
/// again.
pub struct AssetCache<A, S> {
    source: S,
    rows: Vec<Row<A>>,
    next_entry: u64,
}

impl<A, S> View for AssetCache<A, S> {
    type V = Map<Seq<char>, (u64, A)>;

    /// The entries, by id: the identity of each and the value it holds.
    closed spec fn view(&self) -> Map<Seq<char>, (u64, A)> {
        table_view(self.rows@)
    }
}

impl<A, S> AssetCache<A, S> {
    /// The table is consistent: ids and identities unique, and every
    /// identity below the next one to give out.
    #[verifier::type_invariant]
    pub closed spec fn wf(&self) -> bool {
        table_ok(self.rows@, self.next_entry)
    }

    /// The identity the next new entry gets.
    pub closed spec fn next_spec(&self) -> u64 {
        self.next_entry
    }

    /// Whether the handle `h` names an entry of the cache.
    pub open spec fn holds(&self, h: AssetRefLock) -> bool {
        exists|k: Seq<char>| #[trigger] self@.contains_key(k) && self@[k].0 == h.ident()
    }

    /// The value of the entry that `h` names.
    pub open spec fn value_of(&self, h: AssetRefLock) -> A {
        self@[choose|k: Seq<char>| #[trigger] self@.contains_key(k) && self@[k].0 == h.ident()].1
    }

    proof fn lemma_wf_view(&self)
        requires
            self.wf(),
        ensures
            forall|k: Seq<char>| #[trigger] self@.contains_key(k) ==> self@[k].0 < self.next_entry,
            forall|k1: Seq<char>, k2: Seq<char>|
                #[trigger] self@.contains_key(k1) && #[trigger] self@.contains_key(k2) && k1 != k2
                    ==> self@[k1].0 != self@[k2].0,
    {
        assert forall|k: Seq<char>| #[trigger] self@.contains_key(k) implies self@[k].0 < self.next_entry by {
            let i = choose|i: int| 0 <= i < self.rows@.len() && #[trigger] self.rows@[i].0@ == k;
            lemma_view_at(self.rows@, i);
        }
        assert forall|k1: Seq<char>, k2: Seq<char>|
            #[trigger] self@.contains_key(k1) && #[trigger] self@.contains_key(k2) && k1 != k2 implies self@[k1].0
            != self@[k2].0 by {
            let i = choose|i: int| 0 <= i < self.rows@.len() && #[trigger] self.rows@[i].0@ == k1;
            let j = choose|j: int| 0 <= j < self.rows@.len() && #[trigger] self.rows@[j].0@ == k2;
            lemma_view_at(self.rows@, i);
            lemma_view_at(self.rows@, j);
        }
    }

    /// Creates an empty cache over `source`.
    pub fn with_source(source: S) -> (r: AssetCache<A, S>)
        ensures
            r.wf(),
            r@ == Map::<Seq<char>, (u64, A)>::empty(),
            r.next_spec() == 0,
    {
        let r = AssetCache { source, rows: Vec::new(), next_entry: 0 };
        assert(r@ =~= Map::<Seq<char>, (u64, A)>::empty());
        r
    }

    /// The source the cache reads from.
    pub fn source(&self) -> &S {
        &self.source
    }

    /// The position of the row for `id`, if there is one.
    fn find(&self, id: &str) -> (r: Option<usize>)
        ensures
            match r {
                Some(i) => i < self.rows@.len() && self.rows@[i as int].0@ == id@,
                None => !self@.contains_key(id@),
            },
    {
        proof {
            use_type_invariant(&*self);
        }
        let mut i: usize = 0;
        while i < self.rows.len()
            invariant
                i <= self.rows@.len(),
                forall|j: int| 0 <= j < i ==> #[trigger] self.rows@[j].0@ != id@,
            decreases self.rows@.len() - i,
        {
            if same_text(self.rows[i].0.as_str(), id) {
                return Some(i);
            }
            i = i + 1;
        }
        None
    }

    /// Whether the cache has an entry for `id`.
    pub fn contains(&self, id: &str) -> (r: bool)
        ensures
            r == self@.contains_key(id@),
    {
        proof {
            use_type_invariant(&*self);
        }
        match self.find(id) {
            Some(i) => {
                proof {
                    lemma_view_at(self.rows@, i as int);
                }
                true
            },
            None => false,
        }
    }

    /// A handle on the entry for `id`, if the cache has one; nothing is
    /// loaded.
    pub fn load_cached(&self, id: &str) -> (r: Option<AssetRefLock>)
        ensures
            match r {
                Some(h) => self@.contains_key(id@) && h.ident() == self@[id@].0,
                None => !self@.contains_key(id@),
            },
    {
        proof {
            use_type_invariant(&*self);
        }
        match self.find(id) {
            Some(i) => {
                proof {
                    lemma_view_at(self.rows@, i as int);
                }
                Some(self.rows[i].1.get_ref())
            },
            None => None,
        }
    }

    /// Whether the handle `h` names an entry of the cache.
    pub fn holds_handle(&self, h: &AssetRefLock) -> (r: bool)
        ensures
            r == self.holds(*h),
    {
        proof {
            use_type_invariant(&*self);
        }
        let mut i: usize = 0;
        while i < self.rows.len()
            invariant
                self.wf(),
                i <= self.rows@.len(),
                forall|j: int| 0 <= j < i ==> #[trigger] self.rows@[j].1.ident() != h.ident(),
            decreases self.rows@.len() - i,
        {
            if self.rows[i].1.get_ref().ptr_eq(h) {
                proof {
                    lemma_view_at(self.rows@, i as int);
                    assert(self@.contains_key(self.rows@[i as int].0@));
                }
                return true;
            }
            i = i + 1;
        }
        proof {
            assert forall|k: Seq<char>| #[trigger] self@.contains_key(k) implies self@[k].0 != h.ident() by {
                let j = choose|j: int| 0 <= j < self.rows@.len() && #[trigger] self.rows@[j].0@ == k;
                lemma_view_at(self.rows@, j);
            }
        }
        false
    }

    /// The value of the entry that `h` names.
    pub fn read(&self, h: &AssetRefLock) -> (r: &A)
        requires
            self.holds(*h),
        ensures
            *r == self.value_of(*h),
    {
        proof {
            use_type_invariant(&*self);
        }
        let ghost k = choose|k: Seq<char>| #[trigger] self@.contains_key(k) && self@[k].0 == h.ident();
        let ghost i0 = choose|i: int| 0 <= i < self.rows@.len() && #[trigger] self.rows@[i].0@ == k;
        proof {
            lemma_view_at(self.rows@, i0);
            assert(self.value_of(*h) == self.rows@[i0].1.value_spec());
        }
        let n = self.rows.len();
        let mut i: usize = 0;
        while !self.rows[i].1.get_ref().ptr_eq(h)
            invariant
                self.wf(),
                n == self.rows@.len(),
                0 <= i <= i0 < self.rows@.len(),
                self.rows@[i0].1.ident() == h.ident(),
            decreases i0 - i,
        {
            assert(i as int != i0);
            i = i + 1;
        }
        proof {
            assert(i as int == i0);
        }
        self.rows[i].1.read()
    }

    /// Installs `value` under `id` without reading the source. An entry
    /// already there is overwritten in place and keeps its identity;
    /// otherwise a new entry is made.
    pub fn insert(&mut self, id: &str, value: A) -> (r: Result<AssetRefLock, Error>)
        ensures
            old(self)@.contains_key(id@) ==> r is Ok && r->Ok_0.ident() == old(self)@[id@].0
                && final(self)@ == old(self)@.insert(id@, (r->Ok_0.ident(), value))
                && final(self).next_spec() == old(self).next_spec(),
            !old(self)@.contains_key(id@) && old(self).next_spec() < u64::MAX ==> r is Ok
                && r->Ok_0.ident() == old(self).next_spec()
                && final(self)@ == old(self)@.insert(id@, (r->Ok_0.ident(), value))
                && final(self).next_spec() == old(self).next_spec() + 1,
            !old(self)@.contains_key(id@) && old(self).next_spec() == u64::MAX ==> r == Err::<
                AssetRefLock,
                Error,
            >(Error::Exhausted) && final(self)@ == old(self)@ && final(self).next_spec()
                == old(self).next_spec(),
    {
        proof {
            use_type_invariant(&*self);
        }
        match self.find(id) {
            Some(i) => Ok(self.overwrite_at(i, value)),
            None => self.push_new(id, value),
        }
    }

    fn overwrite_at(&mut self, i: usize, value: A) -> (r: AssetRefLock)
        requires
            i < old(self).rows@.len(),
        ensures
            old(self)@.contains_key(old(self).rows@[i as int].0@),
            r.ident() == old(self)@[old(self).rows@[i as int].0@].0,
            final(self)@ == old(self)@.insert(old(self).rows@[i as int].0@, (r.ident(), value)),
            final(self).next_spec() == old(self).next_spec(),
    {
        proof {
            use_type_invariant(&*self);
            lemma_view_at(self.rows@, i as int);
        }
        let ghost rows0 = self.rows@;
        let mut rows: Vec<Row<A>> = Vec::new();
        std::mem::swap(&mut rows, &mut self.rows);
        let mut row = rows.remove(i);
        let r = row.1.write(value);
        rows.insert(i, row);
        proof {
            assert(rows@ =~= rows0.update(i as int, row));
            lemma_view_update(rows0, i as int, row);
            assert forall|a: int, b: int|
                0 <= a < rows@.len() && 0 <= b < rows@.len() && a != b implies #[trigger] rows@[a].1.ident()
                != #[trigger] rows@[b].1.ident() by {
                assert(rows@[a].1.ident() == rows0[a].1.ident());
                assert(rows@[b].1.ident() == rows0[b].1.ident());
            }
            assert forall|a: int| 0 <= a < rows@.len() implies #[trigger] rows@[a].1.ident() < self.next_entry by {
                assert(rows@[a].1.ident() == rows0[a].1.ident());
            }
        }
        self.rows = rows;
        r
    }

    fn push_new(&mut self, id: &str, value: A) -> (r: Result<AssetRefLock, Error>)
        requires
            !old(self)@.contains_key(id@),
        ensures
            old(self).next_spec() < u64::MAX ==> r is Ok && r->Ok_0.ident() == old(self).next_spec()
                && final(self)@ == old(self)@.insert(id@, (r->Ok_0.ident(), value))
                && final(self).next_spec() == old(self).next_spec() + 1,
            old(self).next_spec() == u64::MAX ==> r == Err::<AssetRefLock, Error>(Error::Exhausted)
                && final(self)@ == old(self)@ && final(self).next_spec() == old(self).next_spec(),
    {
        proof {
            use_type_invariant(&*self);
        }
        if self.next_entry == u64::MAX {
            return Err(Error::Exhausted);
        }
        let ident = self.next_entry;
        self.next_entry = ident + 1;
        proof {
            use_type_invariant(&*self);
        }
        let ghost rows0 = self.rows@;
        let entry = CacheEntry::new(value, ident);
        let r = entry.get_ref();
        let row = (id.to_owned(), entry);
        let mut rows: Vec<Row<A>> = Vec::new();
        std::mem::swap(&mut rows, &mut self.rows);
        rows.push(row);
        proof {
            lemma_view_push(rows0, row);
            assert(forall|a: int| 0 <= a < rows0.len() ==> #[trigger] rows0[a].1.ident() < ident);
            assert(idents_unique(rows0));
            assert(rows@[rows0.len() as int].1.ident() == ident);
            assert forall|a: int, b: int|
                0 <= a < rows@.len() && 0 <= b < rows@.len() && a != b implies #[trigger] rows@[a].1.ident()
                != #[trigger] rows@[b].1.ident() by {
                if a < rows0.len() {
                    assert(rows@[a] == rows0[a]);
                }
                if b < rows0.len() {
                    assert(rows@[b] == rows0[b]);
                }
                if a < rows0.len() && b < rows0.len() {
                    assert(rows0[a].1.ident() != rows0[b].1.ident());
                }
            }
            assert forall|a: int| 0 <= a < rows@.len() implies #[trigger] rows@[a].1.ident() < self.next_entry by {
                if a < rows0.len() {
                    assert(rows@[a] == rows0[a]);
                }
            }
        }
        self.rows = rows;
        Ok(r)
    }

    /// Replaces the value of the entry for `id` in place, if there is one;
    /// handles on it read the new value.
    pub fn overwrite(&mut self, id: &str, value: A) -> (r: Option<AssetRefLock>)
        ensures
            final(self).next_spec() == old(self).next_spec(),
            match r {
                Some(h) => old(self)@.contains_key(id@) && h.ident() == old(self)@[id@].0
                    && final(self)@ == old(self)@.insert(id@, (h.ident(), value)),
                None => !old(self)@.contains_key(id@) && final(self)@ == old(self)@,
            },
    {
        proof {
            use_type_invariant(&*self);
        }
        match self.find(id) {
            Some(i) => Some(self.overwrite_at(i, value)),
            None => None,
        }
    }

    /// Removes the entry for `id` and returns its value, if there is one.
    pub fn take(&mut self, id: &str) -> (r: Option<A>)
        ensures
            final(self)@ == old(self)@.remove(id@),
            final(self).next_spec() == old(self).next_spec(),
            match r {
                Some(v) => old(self)@.contains_key(id@) && v == old(self)@[id@].1,
                None => !old(self)@.contains_key(id@),
            },
    {
        proof {
            use_type_invariant(&*self);
        }
        match self.find(id) {
            None => {
                assert(self@ =~= self@.remove(id@));
                None
            },
            Some(i) => {
                let ghost rows0 = self.rows@;
                proof {
                    lemma_view_at(rows0, i as int);
                    lemma_view_remove(rows0, i as int);
                }
                let mut rows: Vec<Row<A>> = Vec::new();
                std::mem::swap(&mut rows, &mut self.rows);
                let row = rows.remove(i);
                proof {
                    assert forall|a: int, b: int|
                        0 <= a < rows@.len() && 0 <= b < rows@.len() && a != b implies #[trigger] rows@[a].1.ident()
                        != #[trigger] rows@[b].1.ident() by {
                        let a2 = if a < i { a } else { a + 1 };
                        let b2 = if b < i { b } else { b + 1 };
                        assert(rows@[a] == rows0[a2] && rows@[b] == rows0[b2]);
                    }
                    assert forall|a: int| 0 <= a < rows@.len() implies #[trigger] rows@[a].1.ident() < self.next_entry by {
                        let a2 = if a < i { a } else { a + 1 };
                        assert(rows@[a] == rows0[a2]);
                    }
                }
                self.rows = rows;
                Some(row.1.into_inner())
            },
        }
    }

    /// A handle on the entry for an id reads that id's value.
    pub proof fn lemma_handle_reads_entry(&self, id: Seq<char>, h: AssetRefLock)
        requires
            self.wf(),
            self@.contains_key(id),
            h.ident() == self@[id].0,
        ensures
            self.holds(h),
            self.value_of(h) == self@[id].1,
    {
        self.lemma_wf_view();
        let k = choose|k: Seq<char>| #[trigger] self@.contains_key(k) && self@[k].0 == h.ident();
        assert(k == id);
    }

    /// A handle taken before an entry is overwritten still names it, reads
    /// the new value, and is the handle the cache gives for the id.
    pub proof fn lemma_overwrite_keeps_handle(
        before: &Self,
        after: &Self,
        id: Seq<char>,
        h: AssetRefLock,
        value: A,
    )
        requires
            before.wf(),
            after.wf(),
            before@.contains_key(id),
            h.ident() == before@[id].0,
            after@ == before@.insert(id, (h.ident(), value)),
        ensures
            after.holds(h),
            after.value_of(h) == value,
            after@[id].0 == h.ident(),
    {
        after.lemma_handle_reads_entry(id, h);
    }

    /// Two loads of an id with nothing in between give handles on the same
    /// entry, and the second changes nothing. `first` and `between` are what
    /// the first `load` returned and left (its `Ok` clause); `second` and
    /// `after` are what the second returned and left (its clause for an id
    /// already present).
    pub proof fn lemma_load_idempotent(
        between: &Self,
        after: &Self,
        id: Seq<char>,
        first: AssetRefLock,
        second: AssetRefLock,
    )
        requires
            between.wf(),
            between@.contains_key(id),
            between@[id].0 == first.ident(),
            second.ident() == between@[id].0,
            after@ == between@,
            after.wf(),
        ensures
            first.ident() == second.ident(),
            after.holds(first),
            after.value_of(second) == between@[id].1,
    {
        after.lemma_handle_reads_entry(id, second);
    }

    /// After an entry is removed, the entry a later load makes is a new one:
    /// no handle taken before the removal names it.
    pub proof fn lemma_remove_then_load(
        before: &Self,
        removed: &Self,
        id: Seq<char>,
        old_handle: AssetRefLock,
        new_handle: AssetRefLock,
    )
        requires
            before.wf(),
            before@.contains_key(id),
            old_handle.ident() == before@[id].0,
            removed@ == before@.remove(id),
            removed.next_spec() == before.next_spec(),
            new_handle.ident() == removed.next_spec(),
        ensures
            old_handle.ident() != new_handle.ident(),
    {
        before.lemma_wf_view();
    }

    /// Removes the entry for `id`, if there is one.
    pub fn remove(&mut self, id: &str)
        ensures
            final(self)@ == old(self)@.remove(id@),
            final(self).next_spec() == old(self).next_spec(),
    {
        proof {
            use_type_invariant(&*self);
        }
        let _ = self.take(id);
    }
}

impl AssetRefLock {
    /// The value of the entry the handle names in `cache`.
    pub fn read<'a, A, S>(&self, cache: &'a AssetCache<A, S>) -> (r: &'a A)
        requires
            cache.holds(*self),
        ensures
            *r == cache.value_of(*self),
    {
        proof {
            use_type_invariant(cache);
        }
        cache.read(self)
    }
}

/// How many results at the front of `reads` are `NotFound`: the position of
/// the result that decides a load, or the length where none does.
pub open spec fn decisive(reads: Seq<(&str, Result<Vec<u8>, SourceError>)>) -> int
    decreases reads.len(),
{
    if reads.len() == 0 {
        0
    } else if reads[0].1 == Err::<Vec<u8>, SourceError>(SourceError::NotFound) {
        1 + decisive(reads.drop_first())
    } else {
        0
    }
}

proof fn lemma_decisive(reads: Seq<(&str, Result<Vec<u8>, SourceError>)>)
    ensures
        0 <= decisive(reads) <= reads.len(),
        decisive(reads) < reads.len() ==> reads[decisive(reads)].1 != Err::<Vec<u8>, SourceError>(
            SourceError::NotFound,
        ),
    decreases reads.len(),
{
    if reads.len() > 0 && reads[0].1 == Err::<Vec<u8>, SourceError>(SourceError::NotFound) {
        let rest = reads.drop_first();
        lemma_decisive(rest);
        let k = decisive(rest);
        assert(decisive(reads) == 1 + k);
        if k < rest.len() {
            assert(rest[k] == reads[k + 1]);
        }
    }
}

/// Whether the entry for `id` in `view` holds `value`.
pub open spec fn final_value_is<A>(view: Map<Seq<char>, (u64, A)>, id: Seq<char>, value: A) -> bool {
    view.contains_key(id) && view[id].1 == value
}

/// The id of the member `leaf` of directory `parent`.
pub open spec fn child_id(parent: Seq<char>, leaf: Seq<char>) -> Seq<char> {
    parent + seq!['.'] + leaf
}

/// Whether no two items of `ids` are the same.
pub open spec fn distinct_ids(ids: Seq<Seq<char>>) -> bool {
    forall|i: int, j: int| 0 <= i < j < ids.len() ==> #[trigger] ids[i] != #[trigger] ids[j]
}

/// The characters of each string of `v`.
pub open spec fn texts(v: Seq<String>) -> Seq<Seq<char>> {
    v.map_values(|s: String| s@)
}

/// Whether `x` is the id of one of the members `leaves` of `parent`.
pub open spec fn is_child(parent: Seq<char>, leaves: Seq<String>, x: Seq<char>) -> bool {
    exists|j: int| 0 <= j < leaves.len() && x == child_id(parent, #[trigger] leaves[j]@)
}

/// Whether `x` is one of `ids`.
pub open spec fn listed(ids: Seq<String>, x: Seq<char>) -> bool {
    exists|i: int| 0 <= i < ids.len() && #[trigger] ids[i]@ == x
}

/// `listed` says of strings what `contains` says of their characters.
pub proof fn lemma_listed_texts(v: Seq<String>, x: Seq<char>)
    ensures
        listed(v, x) == texts(v).contains(x),
{
    if listed(v, x) {
        let i = choose|i: int| 0 <= i < v.len() && #[trigger] v[i]@ == x;
        assert(texts(v)[i] == x);
    }
    if texts(v).contains(x) {
        let i = choose|i: int| 0 <= i < texts(v).len() && texts(v)[i] == x;
        assert(v[i]@ == x);
    }
}

/// Whether `ids` holds `x`.
pub fn holds_text(ids: &Vec<String>, x: &str) -> (r: bool)
    ensures
        r == listed(ids@, x@),
{
    let mut i: usize = 0;
    while i < ids.len()
        invariant
            i <= ids@.len(),
            forall|j: int| 0 <= j < i ==> #[trigger] ids@[j]@ != x@,
        decreases ids@.len() - i,
    {
        if same_text(ids[i].as_str(), x) {
            return true;
        }
        i = i + 1;
    }
    false
}

/// The ids of the members `leaves` of directory `parent`, each once, in the
/// order of their first listing.
pub fn child_ids(parent: &str, leaves: &Vec<String>) -> (r: Vec<String>)
    ensures
        distinct_ids(texts(r@)),
        forall|i: int| 0 <= i < r@.len() ==> is_child(parent@, leaves@, #[trigger] r@[i]@),
        forall|k: int| 0 <= k < leaves@.len() ==> listed(r@, child_id(parent@, #[trigger] leaves@[k]@)),
{
    let mut out: Vec<String> = Vec::new();
    let mut k: usize = 0;
    while k < leaves.len()
        invariant
            k <= leaves@.len(),
            forall|a: int, b: int| 0 <= a < b < out@.len() ==> #[trigger] out@[a]@ != #[trigger] out@[b]@,
            forall|i: int| 0 <= i < out@.len() ==> is_child(parent@, leaves@, #[trigger] out@[i]@),
            forall|j: int| 0 <= j < k ==> listed(out@, child_id(parent@, #[trigger] leaves@[j]@)),
        decreases leaves@.len() - k,
    {
        let mut full = parent.to_owned();
        full.append(".");
        full.append(leaves[k].as_str());
        proof {
            reveal_strlit(".");
            assert(full@ =~= child_id(parent@, leaves@[k as int]@));
        }
        let ghost prev = out@;
        if !holds_text(&out, full.as_str()) {
            out.push(full);
            proof {
                let n = prev.len() as int;
                assert(out@[n]@ == child_id(parent@, leaves@[k as int]@));
                assert forall|i: int| 0 <= i < out@.len() implies is_child(parent@, leaves@, #[trigger] out@[i]@) by {
                    if i < n {
                        assert(out@[i] == prev[i]);
                    }
                }
                assert forall|j: int| 0 <= j < k + 1 implies listed(out@, child_id(parent@, #[trigger] leaves@[j]@)) by {
                    if j == k {
                        assert(out@[n]@ == child_id(parent@, leaves@[j]@));
                    } else {
                        assert(listed(prev, child_id(parent@, leaves@[j]@)));
                        let i = choose|i: int| 0 <= i < prev.len() && #[trigger] prev[i]@ == child_id(parent@, leaves@[j]@);
                        assert(out@[i] == prev[i]);
                    }
                }
            }
        } else {
            proof {
                let i = choose|i: int| 0 <= i < out@.len() && #[trigger] out@[i]@ == full@;
                assert(out@[i]@ == child_id(parent@, leaves@[k as int]@));
            }
        }
        k = k + 1;
    }
    assert forall|i: int, j: int| 0 <= i < j < out@.len() implies #[trigger] texts(out@)[i]
        != #[trigger] texts(out@)[j] by {
        assert(out@[i]@ != out@[j]@);
    }
    out
}

/// The outcome of loading each member of a directory.
pub struct DirHandle {
    entries: Vec<(String, Result<AssetRefLock, Error>)>,
}

impl DirHandle {
    /// The ids of the members, in the order they were loaded.
    pub closed spec fn ids(&self) -> Seq<Seq<char>> {
        self.entries@.map_values(|e: (String, Result<AssetRefLock, Error>)| e.0@)
    }

    /// The outcome for each member, in order.
    pub closed spec fn outcomes(&self) -> Seq<Result<AssetRefLock, Error>> {
        self.entries@.map_values(|e: (String, Result<AssetRefLock, Error>)| e.1)
    }

    /// Whether `h` is the outcome of some member.
    pub open spec fn loaded(&self, h: AssetRefLock) -> bool {
        exists|j: int| 0 <= j < self.outcomes().len() && #[trigger] self.outcomes()[j] == Ok::<AssetRefLock, Error>(h)
    }

    /// Handles on the members that loaded, in order.
    pub fn iter(&self) -> (r: Vec<AssetRefLock>)
        ensures
            forall|i: int| 0 <= i < r@.len() ==> self.loaded(#[trigger] r@[i]),
            forall|j: int|
                0 <= j < self.outcomes().len() && (#[trigger] self.outcomes()[j]) is Ok ==> r@.contains(self.outcomes()[j]->Ok_0),
    {
        let mut out: Vec<AssetRefLock> = Vec::new();
        let mut i: usize = 0;
        while i < self.entries.len()
            invariant
                i <= self.entries@.len(),
                forall|a: int| 0 <= a < out@.len() ==> self.loaded(#[trigger] out@[a]),
                forall|j: int|
                    0 <= j < i && (#[trigger] self.outcomes()[j]) is Ok ==> out@.contains(self.outcomes()[j]->Ok_0),
            decreases self.entries@.len() - i,
        {
            let ghost prev = out@;
            if let Ok(h) = &self.entries[i].1 {
                out.push(*h);
                proof {
                    let n = prev.len() as int;
                    assert(self.outcomes()[i as int] == Ok::<AssetRefLock, Error>(out@[n]));
                    assert forall|a: int| 0 <= a < out@.len() implies self.loaded(#[trigger] out@[a]) by {
                        if a < n {
                            assert(out@[a] == prev[a]);
                        }
                    }
                    assert forall|j: int|
                        0 <= j < i + 1 && (#[trigger] self.outcomes()[j]) is Ok implies out@.contains(self.outcomes()[j]->Ok_0) by {
                        if j == i {
                            assert(out@[n] == self.outcomes()[j]->Ok_0);
                        } else {
                            let a = choose|a: int| 0 <= a < prev.len() && prev[a] == self.outcomes()[j]->Ok_0;
                            assert(out@[a] == prev[a]);
                        }
                    }
                }
            }
            i = i + 1;
        }
        out
    }

    /// The id and outcome of every member, in order.
    pub fn iter_all(&self) -> (r: &Vec<(String, Result<AssetRefLock, Error>)>)
        ensures
            r@.map_values(|e: (String, Result<AssetRefLock, Error>)| e.0@) == self.ids(),
            r@.map_values(|e: (String, Result<AssetRefLock, Error>)| e.1) == self.outcomes(),
    {
        &self.entries
    }
}

impl<A: Asset, S: Source> AssetCache<A, S> {
    /// Installs what a loader made of the file for `id`: a value is
    /// inserted as `insert` does, a failure is reported as such and changes
    /// nothing.
    pub fn install(&mut self, id: &str, loaded: Result<A, LoadError>) -> (r: Result<AssetRefLock, Error>)
        ensures
            match loaded {
                Err(e) => r == Err::<AssetRefLock, Error>(Error::LoaderFailed(e)) && final(self)@
                    == old(self)@ && final(self).next_spec() == old(self).next_spec(),
                Ok(value) => {
                    &&& old(self)@.contains_key(id@) ==> r is Ok && r->Ok_0.ident() == old(self)@[id@].0
                        && final(self)@ == old(self)@.insert(id@, (r->Ok_0.ident(), value))
                        && final(self).next_spec() == old(self).next_spec()
                    &&& !old(self)@.contains_key(id@) && old(self).next_spec() < u64::MAX ==> r is Ok
                        && r->Ok_0.ident() == old(self).next_spec()
                        && final(self)@ == old(self)@.insert(id@, (r->Ok_0.ident(), value))
                        && final(self).next_spec() == old(self).next_spec() + 1
                    &&& !old(self)@.contains_key(id@) && old(self).next_spec() == u64::MAX ==> r
                        == Err::<AssetRefLock, Error>(Error::Exhausted) && final(self)@ == old(self)@
                        && final(self).next_spec() == old(self).next_spec()
                },
            },
    {
        proof {
            use_type_invariant(&*self);
        }
        match loaded {
            Ok(value) => self.insert(id, value),
            Err(e) => Err(Error::LoaderFailed(e)),
        }
    }

    /// Acts on what the source gave for the file `id` with extension `ext`:
    /// an absent file gives `None`, so that the next extension is tried; any
    /// other failure is the outcome; found bytes go through `A`'s loader and
    /// `install`.
    pub fn settle(&mut self, id: &str, ext: &str, read: Result<Vec<u8>, SourceError>) -> (r: Option<
        Result<AssetRefLock, Error>,
    >)
        ensures
            match read {
                Err(SourceError::NotFound) => r is None && final(self)@ == old(self)@
                    && final(self).next_spec() == old(self).next_spec(),
                Err(SourceError::Io(m)) => r == Some(Err::<AssetRefLock, Error>(Error::Io(m)))
                    && final(self)@ == old(self)@ && final(self).next_spec() == old(self).next_spec(),
                Ok(b) => r is Some && (r->Some_0 is Ok ==> <A::Loader as Loader<A>>::loads(
                    b@,
                    ext@,
                    Ok::<A, LoadError>(final(self)@[id@].1),
                )) && (match r->Some_0 {
                    Err(Error::LoaderFailed(e)) => <A::Loader as Loader<A>>::loads(
                        b@,
                        ext@,
                        Err::<A, LoadError>(e),
                    ),
                    _ => true,
                }) && match r->Some_0 {
                    Ok(h) => {
                        &&& final(self)@.contains_key(id@)
                        &&& final(self)@ == old(self)@.insert(id@, (h.ident(), final(self)@[id@].1))
                        &&& old(self)@.contains_key(id@) ==> h.ident() == old(self)@[id@].0
                            && final(self).next_spec() == old(self).next_spec()
                        &&& !old(self)@.contains_key(id@) ==> h.ident() == old(self).next_spec()
                            && final(self).next_spec() == old(self).next_spec() + 1
                    },
                    Err(e) => final(self)@ == old(self)@ && final(self).next_spec()
                        == old(self).next_spec() && (e is LoaderFailed || e is Exhausted),
                },
            },
    {
        proof {
            use_type_invariant(&*self);
        }
        match read {
            Err(SourceError::NotFound) => None,
            Err(SourceError::Io(m)) => Some(Err(Error::Io(m))),
            Ok(bytes) => {
                let ghost b = bytes@;
                let loaded = <A::Loader as Loader<A>>::load(bytes, ext);
                let ghost was = loaded;
                let r = self.install(id, loaded);
                proof {
                    if r is Ok {
                        assert(was is Ok);
                        assert(final_value_is(self@, id@, was->Ok_0));
                    }
                }
                Some(r)
            },
        }
    }

    /// A handle on the asset `id`, loaded from the source if the cache has
    /// no entry for it yet.
    ///
    /// The extensions of `A` are tried in order: a file that is not found
    /// passes to the next one, and the first that is found, or fails
    /// otherwise, decides. Failures are not cached.
    pub fn load(&mut self, id: &str) -> (r: Result<AssetRefLock, Error>)
        ensures
            r is Ok ==> final(self)@.contains_key(id@) && final(self)@[id@].0 == r->Ok_0.ident(),
            old(self)@.contains_key(id@) ==> r is Ok && r->Ok_0.ident() == old(self)@[id@].0
                && final(self)@ == old(self)@ && final(self).next_spec() == old(self).next_spec(),
            !old(self)@.contains_key(id@) ==> match r {
                Ok(h) => h.ident() == old(self).next_spec() && final(self)@.contains_key(id@)
                    && final(self)@ == old(self)@.insert(id@, (h.ident(), final(self)@[id@].1))
                    && final(self).next_spec() == old(self).next_spec() + 1,
                Err(e) => final(self)@ == old(self)@ && final(self).next_spec()
                    == old(self).next_spec() && e != Error::NoDefaultValue,
            },
    {
        proof {
            use_type_invariant(&*self);
        }
        if let Some(h) = self.load_cached(id) {
            return Ok(h);
        }
        let exts = A::extensions();
        let mut reads: Vec<(&str, Result<Vec<u8>, SourceError>)> = Vec::new();
        let mut i: usize = 0;
        while i < exts.len()
            invariant
                i <= exts@.len(),
            decreases exts@.len() - i,
        {
            let ext = exts[i];
            let read = self.source.read(id, ext);
            let absent = match &read {
                Err(SourceError::NotFound) => true,
                _ => false,
            };
            reads.push((ext, read));
            if !absent {
                break;
            }
            i = i + 1;
        }
        proof {
            lemma_decisive(reads@);
        }
        self.load_from_reads(id, reads)
    }

    /// Loads `id` from the results of reading it with each extension in
    /// turn. An entry already in the cache is returned as it is. Otherwise
    /// the first result that is not `NotFound` decides: other failures are
    /// returned, and found bytes go through `settle`; where every result is
    /// `NotFound`, so is the outcome.
    pub fn load_from_reads(&mut self, id: &str, reads: Vec<(&str, Result<Vec<u8>, SourceError>)>) -> (r:
        Result<AssetRefLock, Error>)
        ensures
            r is Ok ==> final(self)@.contains_key(id@) && final(self)@[id@].0 == r->Ok_0.ident(),
            old(self)@.contains_key(id@) ==> r is Ok && r->Ok_0.ident() == old(self)@[id@].0
                && final(self)@ == old(self)@ && final(self).next_spec() == old(self).next_spec(),
            !old(self)@.contains_key(id@) ==> {
                let d = decisive(reads@);
                &&& d == reads@.len() ==> r == Err::<AssetRefLock, Error>(Error::NotFound)
                    && final(self)@ == old(self)@ && final(self).next_spec() == old(self).next_spec()
                &&& d < reads@.len() ==> match reads@[d].1 {
                    Err(SourceError::Io(m)) => r == Err::<AssetRefLock, Error>(Error::Io(m))
                        && final(self)@ == old(self)@ && final(self).next_spec() == old(self).next_spec(),
                    Err(SourceError::NotFound) => false,
                    Ok(_) => match r {
                        Ok(h) => h.ident() == old(self).next_spec() && final(self)@ == old(self)@.insert(
                            id@,
                            (h.ident(), final(self)@[id@].1),
                        ) && final(self).next_spec() == old(self).next_spec() + 1,
                        Err(e) => final(self)@ == old(self)@ && final(self).next_spec()
                            == old(self).next_spec() && (e is LoaderFailed || e is Exhausted),
                    },
                }
            },
    {
        proof {
            use_type_invariant(&*self);
        }
        if let Some(h) = self.load_cached(id) {
            return Ok(h);
        }
        let ghost all = reads@;
        proof {
            lemma_decisive(all);
        }
        let mut rest = reads;
        let ghost mut i: int = 0;
        while rest.len() > 0
            invariant
                self@ == old(self)@,
                all == reads@,
                self.next_spec() == old(self).next_spec(),
                !self@.contains_key(id@),
                0 <= i <= all.len(),
                rest@ == all.subrange(i, all.len() as int),
                decisive(all) == i + decisive(rest@),
            decreases rest@.len(),
        {
            let ghost before = rest@;
            let (ext, read) = rest.remove(0);
            proof {
                assert(before[0] == all[i]);
                assert(before[0] == (ext, read));
                assert(rest@ =~= all.subrange(i + 1, all.len() as int));
                assert(before.drop_first() =~= rest@);
            }
            let absent = match &read {
                Err(SourceError::NotFound) => true,
                _ => false,
            };
            if let Some(r) = self.settle(id, ext, read) {
                assert(!absent);
                assert(i < all.len());
                assert(decisive(before) == 0);
                assert(decisive(all) == i);
                        assert(all[i].1 == before[0].1);
                return r;
            }
            proof {
                assert(absent);
                assert(decisive(before) == 1 + decisive(rest@));
                i = i + 1;
            }
        }
        assert(all.subrange(i, all.len() as int).len() == 0);
        Err(Error::NotFound)
    }

    /// Applies new content of the file `id` with extension `ext`. Where the
    /// cache has an entry for `id` and `ext` is one of `A`'s, the entry is
    /// overwritten in place with what the loader makes of `content`, and
    /// `Ok(true)` is returned; where the loader fails, its error is returned
    /// and the previous value stays. Otherwise nothing changes.
    pub fn reload(&mut self, id: &str, ext: &str, content: Vec<u8>) -> (r: Result<bool, LoadError>)
        ensures
            final(self).next_spec() == old(self).next_spec(),
            !old(self)@.contains_key(id@) ==> r == Ok::<bool, LoadError>(false),
            match r {
                Ok(true) => old(self)@.contains_key(id@) && final(self)@ == old(self)@.insert(
                    id@,
                    (old(self)@[id@].0, final(self)@[id@].1),
                ) && <A::Loader as Loader<A>>::loads(
                    content@,
                    ext@,
                    Ok::<A, LoadError>(final(self)@[id@].1),
                ),
                Err(e) => final(self)@ == old(self)@ && <A::Loader as Loader<A>>::loads(
                    content@,
                    ext@,
                    Err::<A, LoadError>(e),
                ),
                _ => final(self)@ == old(self)@,
            },
    {
        proof {
            use_type_invariant(&*self);
        }
        if !contains_text(A::extensions(), ext) || !self.contains(id) {
            return Ok(false);
        }
        match <A::Loader as Loader<A>>::load(content, ext) {
            Ok(value) => {
                let _ = self.overwrite(id, value);
                Ok(true)
            },
            Err(e) => Err(e),
        }
    }

    /// Loads `id` as `load` does, on behalf of a compound being built, and
    /// records in `deps` that the compound read it.
    pub fn load_tracked(&mut self, id: &str, deps: &mut DepsRecord) -> (r: Result<AssetRefLock, Error>)
        ensures
            r is Ok ==> final(self)@.contains_key(id@) && final(self)@[id@].0 == r->Ok_0.ident(),
            old(self)@.contains_key(id@) ==> r is Ok && r->Ok_0.ident() == old(self)@[id@].0
                && final(self)@ == old(self)@,
            r is Err ==> final(self)@ == old(self)@,
            distinct_ids(texts(final(deps).recorded())),
            forall|x: Seq<char>|
                listed(final(deps).recorded(), x) == (listed(old(deps).recorded(), x) || x == id@),
    {
        proof {
            use_type_invariant(&*self);
        }
        deps.record(id);
        self.load(id)
    }

    /// Loads every member of directory `id` whose extension is one of
    /// `A`'s, each once. The listing is read once; a member that fails to
    /// load does not stop the others.
    pub fn load_dir(&mut self, id: &str) -> (r: Result<DirHandle, Error>)
        ensures
            r is Err ==> final(self)@ == old(self)@,
            forall|k: Seq<char>| #[trigger] old(self)@.contains_key(k) ==> final(self)@.contains_key(k)
                && final(self)@[k] == old(self)@[k],
            r is Ok ==> {
                let d = r->Ok_0;
                &&& distinct_ids(d.ids())
                &&& d.ids().len() == d.outcomes().len()
                &&& forall|i: int| 0 <= i < d.ids().len() ==> (#[trigger] d.ids()[i]).len() > id@.len() && d.ids()[i].subrange(0, id@.len() + 1 as int) == id@ + seq!['.']
                &&& forall|i: int| 0 <= i < d.outcomes().len() && (#[trigger] d.outcomes()[i]) is Ok ==> final(self)@.contains_key(d.ids()[i])
                    && final(self)@[d.ids()[i]].0 == d.outcomes()[i]->Ok_0.ident()
            },
    {
        proof {
            use_type_invariant(&*self);
        }
        let listing = match self.source.read_dir(id, A::extensions()) {
            Ok(l) => l,
            Err(SourceError::NotFound) => return Err(Error::NotFound),
            Err(SourceError::Io(message)) => return Err(Error::Io(message)),
        };
        let d = self.load_listed(id, &listing);
        proof {
            assert forall|i: int| 0 <= i < d.ids().len() implies (#[trigger] d.ids()[i]).len() > id@.len()
                && d.ids()[i].subrange(0, id@.len() + 1 as int) == id@ + seq!['.'] by {
                let j = choose|j: int|
                    0 <= j < listing@.len() && d.ids()[i] == child_id(id@, #[trigger] listing@[j]@);
                assert(d.ids()[i].subrange(0, id@.len() + 1 as int) =~= id@ + seq!['.']);
            }
        }
        Ok(d)
    }

    /// Loads the members `listing` of directory `id`, each once; a member
    /// that fails to load does not stop the others.
    pub fn load_listed(&mut self, id: &str, listing: &Vec<String>) -> (d: DirHandle)
        ensures
            distinct_ids(d.ids()),
            d.ids().len() == d.outcomes().len(),
            forall|k: int|
                0 <= k < listing@.len() ==> d.ids().contains(child_id(id@, #[trigger] listing@[k]@)),
            forall|i: int| 0 <= i < d.ids().len() ==> is_child(id@, listing@, #[trigger] d.ids()[i]),
            forall|i: int|
                0 <= i < d.outcomes().len() && (#[trigger] d.outcomes()[i]) is Ok
                    ==> final(self)@.contains_key(d.ids()[i]) && final(self)@[d.ids()[i]].0
                    == d.outcomes()[i]->Ok_0.ident(),
            forall|k: Seq<char>| #[trigger] old(self)@.contains_key(k) ==> final(self)@.contains_key(k)
                && final(self)@[k] == old(self)@[k],
    {
        let children = child_ids(id, &listing);
        let ghost ids = texts(children@);
        let mut entries: Vec<(String, Result<AssetRefLock, Error>)> = Vec::new();
        let mut i: usize = 0;
        while i < children.len()
            invariant
                i <= children@.len(),
                ids == texts(children@),
                distinct_ids(ids),
                forall|a: int| 0 <= a < children@.len() ==> is_child(id@, listing@, #[trigger] children@[a]@),
                entries@.len() == i,
                forall|a: int| 0 <= a < i ==> #[trigger] entries@[a].0@ == ids[a],
                forall|a: int| 0 <= a < i && (#[trigger] entries@[a]).1 is Ok ==> self@.contains_key(ids[a])
                    && self@[ids[a]].0 == entries@[a].1->Ok_0.ident(),
                forall|k: Seq<char>| #[trigger] old(self)@.contains_key(k) ==> self@.contains_key(k)
                    && self@[k] == old(self)@[k],
            decreases children@.len() - i,
        {
            let ghost before = self@;
            let child = children[i].clone();
            let r = self.load(children[i].as_str());
            entries.push((child, r));
            assert(child@ == children@[i as int]@);
            i = i + 1;
        }
        let d = DirHandle { entries };
        assert(d.ids() =~= ids);
        proof {
            assert forall|k: int| 0 <= k < listing@.len() implies d.ids().contains(
                child_id(id@, #[trigger] listing@[k]@),
            ) by {
                lemma_listed_texts(children@, child_id(id@, listing@[k]@));
            }
        }
        d
    }
}

} // verus!
