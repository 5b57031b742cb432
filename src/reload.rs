//! Dependencies of compound assets, and which compounds a change reaches.
use vstd::prelude::*;

use crate::cache::{distinct_ids, holds_text, listed, texts};

verus! {

/// How many items of `s` are set.
pub open spec fn count_set(s: Seq<bool>) -> nat
    decreases s.len(),
{
    if s.len() == 0 {
        0
    } else {
        count_set(s.drop_last()) + if s.last() {
            1nat
        } else {
            0nat
        }
    }
}

proof fn lemma_count_bound(s: Seq<bool>)
    ensures
        count_set(s) <= s.len(),
    decreases s.len(),
{
    if s.len() > 0 {
        lemma_count_bound(s.drop_last());
    }
}

proof fn lemma_count_set_one(s: Seq<bool>, j: int)
    requires
        0 <= j < s.len(),
        !s[j],
    ensures
        count_set(s.update(j, true)) == count_set(s) + 1,
    decreases s.len(),
{
    let t = s.update(j, true);
    if j == s.len() - 1 {
        assert(t.drop_last() =~= s.drop_last());
    } else {
        assert(t.drop_last() =~= s.drop_last().update(j, true));
        lemma_count_set_one(s.drop_last(), j);
    }
}

/// The ids a compound reads while it is built, each once.
pub struct DepsRecord {
    ids: Vec<String>,
}

impl DepsRecord {
    /// The ids recorded so far.
    pub closed spec fn recorded(&self) -> Seq<String> {
        self.ids@
    }

    /// No id is recorded twice.
    #[verifier::type_invariant]
    closed spec fn once_each(&self) -> bool {
        distinct_ids(texts(self.ids@))
    }

    /// Nothing recorded yet.
    pub fn new() -> (r: DepsRecord)
        ensures
            r.recorded().len() == 0,
    {
        DepsRecord { ids: Vec::new() }
    }

    /// Records that `id` was read.
    pub fn record(&mut self, id: &str)
        ensures
            distinct_ids(texts(final(self).recorded())),
            forall|x: Seq<char>| listed(final(self).recorded(), x) == (listed(old(self).recorded(), x) || x == id@),
    {
        proof {
            use_type_invariant(&*self);
        }
        if !holds_text(&self.ids, id) {
            let ghost prev = self.ids@;
            let mut ids: Vec<String> = Vec::new();
            std::mem::swap(&mut ids, &mut self.ids);
            ids.push(id.to_owned());
            proof {
                let n = prev.len() as int;
                assert(ids@[n]@ == id@);
                assert forall|a: int, b: int| 0 <= a < b < ids@.len() implies #[trigger] texts(ids@)[a]
                    != #[trigger] texts(ids@)[b] by {
                    if b < n {
                        assert(texts(prev)[a] != texts(prev)[b]);
                    } else {
                        assert(ids@[a] == prev[a]);
                    }
                }
            }
            self.ids = ids;
            proof {
                assert forall|x: Seq<char>| listed(self.ids@, x) == (listed(prev, x) || x == id@) by {
                    if listed(prev, x) {
                        let i = choose|i: int| 0 <= i < prev.len() && #[trigger] prev[i]@ == x;
                        assert(self.ids@[i] == prev[i]);
                    }
                    if listed(self.ids@, x) && x != id@ {
                        let i = choose|i: int| 0 <= i < self.ids@.len() && #[trigger] self.ids@[i]@ == x;
                        assert(prev[i] == self.ids@[i]);
                    }
                }
            }
        }
    }

    /// The recorded ids.
    pub fn into_ids(self) -> (r: Vec<String>)
        ensures
            r@ == self.recorded(),
    {
        self.ids
    }
}

/// The compounds of a cache and the ids each one read while it was built.
///
/// When an asset changes, every compound that read it has to be built
/// again, and so, in turn, every compound that read one of those.
pub struct Dependencies {
    rows: Vec<(String, Vec<String>)>,
}

impl Dependencies {
    /// Each compound with the ids it read.
    pub closed spec fn rows(&self) -> Seq<(String, Vec<String>)> {
        self.rows@
    }

    /// No compound is listed twice.
    #[verifier::type_invariant]
    pub closed spec fn wf(&self) -> bool {
        forall|i: int, j: int|
            0 <= i < self.rows().len() && 0 <= j < self.rows().len() && i != j ==> #[trigger] self.rows()[i].0@
                != #[trigger] self.rows()[j].0@
    }

    /// Whether `c` is a registered compound.
    pub open spec fn is_compound(&self, c: Seq<char>) -> bool {
        exists|j: int| 0 <= j < self.rows().len() && #[trigger] self.rows()[j].0@ == c
    }

    /// Whether the compound `c` read `x` when it was built.
    pub open spec fn depends_on(&self, c: Seq<char>, x: Seq<char>) -> bool {
        exists|j: int|
            0 <= j < self.rows().len() && #[trigger] self.rows()[j].0@ == c && listed(
                self.rows()[j].1@,
                x,
            )
    }

    /// No compound yet.
    pub fn new() -> (r: Dependencies)
        ensures
            forall|c: Seq<char>| !r.is_compound(c),
    {
        Dependencies { rows: Vec::new() }
    }

    /// Forgets every compound.
    pub fn clear(&mut self)
        ensures
            forall|c: Seq<char>| !final(self).is_compound(c),
    {
        self.rows = Vec::new();
    }

    /// Records that the compound `id` read the ids `deps`, in place of what
    /// it read before.
    pub fn add_compound(&mut self, id: String, deps: Vec<String>)
        ensures
            final(self).is_compound(id@),
            forall|c: Seq<char>| c != id@ ==> final(self).is_compound(c) == old(self).is_compound(c),
            forall|x: Seq<char>| final(self).depends_on(id@, x) == listed(deps@, x),
            forall|c: Seq<char>, x: Seq<char>|
                c != id@ ==> final(self).depends_on(c, x) == old(self).depends_on(c, x),
    {
        proof {
            use_type_invariant(&*self);
        }
        let ghost rows0 = self.rows@;
        let mut rows: Vec<(String, Vec<String>)> = Vec::new();
        std::mem::swap(&mut rows, &mut self.rows);
        let mut i: usize = 0;
        while i < rows.len()
            invariant
                rows@ == rows0,
                rows0 == old(self).rows(),
                old(self).wf(),
                i <= rows0.len(),
                forall|j: int| 0 <= j < i ==> #[trigger] rows0[j].0@ != id@,
            decreases rows0.len() - i,
        {
            if rows[i].0 == id {
                let ghost key = id@;
                let ghost dv = deps@;
                rows.set(i, (id, deps));
                proof {
                    let s = rows@;
                    assert forall|a: int, b: int|
                        0 <= a < s.len() && 0 <= b < s.len() && a != b implies #[trigger] s[a].0@
                        != #[trigger] s[b].0@ by {
                        assert(s[a].0@ == rows0[a].0@ && s[b].0@ == rows0[b].0@);
                    }
                }
                self.rows = rows;
                proof {
                    let s = self.rows@;
                    assert(self.rows() == s);
                    assert(s[i as int].1@ == dv);
                    assert(s[i as int].0@ == key);
                    assert forall|c: Seq<char>| c != key implies self.is_compound(c) == (exists|j: int|
                        0 <= j < rows0.len() && #[trigger] rows0[j].0@ == c) by {
                        if exists|j: int| 0 <= j < rows0.len() && #[trigger] rows0[j].0@ == c {
                            let j = choose|j: int| 0 <= j < rows0.len() && #[trigger] rows0[j].0@ == c;
                            assert(j != i);
                            assert(s[j] == rows0[j]);
                            assert(s[j].0@ == c);
                        }
                        if self.is_compound(c) {
                            let j = choose|j: int| 0 <= j < s.len() && #[trigger] s[j].0@ == c;
                            assert(s[j] == rows0[j]);
                        }
                    }
                    assert forall|x: Seq<char>| self.depends_on(key, x) == listed(dv, x) by {
                        if self.depends_on(key, x) {
                            let j = choose|j: int|
                                0 <= j < s.len() && #[trigger] s[j].0@ == key && listed(s[j].1@, x);
                            assert(j == i);
                        }
                    }
                    assert forall|c: Seq<char>, x: Seq<char>| c != key implies self.depends_on(c, x)
                        == (exists|j: int|
                        0 <= j < rows0.len() && #[trigger] rows0[j].0@ == c && listed(rows0[j].1@, x)) by {
                        if exists|j: int|
                            0 <= j < rows0.len() && #[trigger] rows0[j].0@ == c && listed(rows0[j].1@, x) {
                            let j = choose|j: int|
                                0 <= j < rows0.len() && #[trigger] rows0[j].0@ == c && listed(rows0[j].1@, x);
                            assert(s[j] == rows0[j]);
                        }
                        if self.depends_on(c, x) {
                            let j = choose|j: int|
                                0 <= j < s.len() && #[trigger] s[j].0@ == c && listed(s[j].1@, x);
                            assert(s[j] == rows0[j]);
                        }
                    }
                }
                return;
            }
            i = i + 1;
        }
        let ghost key = id@;
        let ghost dv = deps@;
        rows.push((id, deps));
        proof {
            let s = rows@;
            let n = rows0.len() as int;
            assert forall|a: int, b: int|
                0 <= a < s.len() && 0 <= b < s.len() && a != b implies #[trigger] s[a].0@
                != #[trigger] s[b].0@ by {
                if a < n {
                    assert(s[a] == rows0[a]);
                }
                if b < n {
                    assert(s[b] == rows0[b]);
                }
            }
        }
        self.rows = rows;
        proof {
            let s = self.rows@;
            assert(self.rows() == s);
            let n = rows0.len() as int;
            assert(s[n].0@ == key);
            assert forall|c: Seq<char>| c != key implies self.is_compound(c) == (exists|j: int|
                0 <= j < rows0.len() && #[trigger] rows0[j].0@ == c) by {
                if exists|j: int| 0 <= j < rows0.len() && #[trigger] rows0[j].0@ == c {
                    let j = choose|j: int| 0 <= j < rows0.len() && #[trigger] rows0[j].0@ == c;
                    assert(s[j] == rows0[j]);
                }
                if self.is_compound(c) {
                    let j = choose|j: int| 0 <= j < s.len() && #[trigger] s[j].0@ == c;
                    assert(s[j] == rows0[j]);
                }
            }
            assert forall|x: Seq<char>| self.depends_on(key, x) == listed(dv, x) by {
                if self.depends_on(key, x) {
                    let j = choose|j: int|
                        0 <= j < s.len() && #[trigger] s[j].0@ == key && listed(s[j].1@, x);
                    assert(j == n);
                }
                if listed(dv, x) {
                    assert(s[n].0@ == key && listed(s[n].1@, x));
                }
            }
            assert forall|c: Seq<char>, x: Seq<char>| c != key implies self.depends_on(c, x)
                == (exists|j: int|
                0 <= j < rows0.len() && #[trigger] rows0[j].0@ == c && listed(rows0[j].1@, x)) by {
                if exists|j: int|
                    0 <= j < rows0.len() && #[trigger] rows0[j].0@ == c && listed(rows0[j].1@, x) {
                    let j = choose|j: int|
                        0 <= j < rows0.len() && #[trigger] rows0[j].0@ == c && listed(rows0[j].1@, x);
                    assert(s[j] == rows0[j]);
                }
                if self.depends_on(c, x) {
                    let j = choose|j: int|
                        0 <= j < s.len() && #[trigger] s[j].0@ == c && listed(s[j].1@, x);
                    assert(s[j] == rows0[j]);
                }
            }
        }
    }

    /// Marks and lists are consistent: `order` lists, each once, exactly the
    /// set marks.
    pub open spec fn marking(&self, marks: Seq<bool>, order: Seq<usize>) -> bool {
        &&& marks.len() == self.rows().len()
        &&& forall|p: int| 0 <= p < order.len() ==> (#[trigger] order[p]) < marks.len() && marks[order[p] as int]
        &&& forall|j: int| 0 <= j < marks.len() && #[trigger] marks[j] ==> exists|p: int| 0 <= p < order.len() && order[p] == j
        &&& forall|p: int, q: int| 0 <= p < q < order.len() ==> #[trigger] order[p] != #[trigger] order[q]
        &&& count_set(marks) == order.len()
    }

    /// Whether the compound at position `p` of `order` read `changed`, or
    /// read a compound listed before it.
    pub open spec fn reached(&self, order: Seq<usize>, changed: Seq<char>, p: int) -> bool {
        listed(self.rows()[order[p] as int].1@, changed) || exists|q: int|
            0 <= q < p && #[trigger] listed(self.rows()[order[p] as int].1@, self.rows()[order[q] as int].0@)
    }

    /// Whether the `i`th compound of `r` read `changed`, or read one that
    /// comes before it in `r`.
    pub open spec fn read_earlier(&self, r: Seq<String>, changed: Seq<char>, i: int) -> bool {
        self.depends_on(r[i]@, changed) || exists|j: int| 0 <= j < i && #[trigger] self.depends_on(r[i]@, r[j]@)
    }

    /// Marks, and lists, every compound that read `x` and is not marked yet.
    fn mark_readers(&self, x: &str, marks: &mut Vec<bool>, order: &mut Vec<usize>)
        requires
            self.marking(old(marks)@, old(order)@),
        ensures
            self.marking(final(marks)@, final(order)@),
            final(order)@.len() >= old(order)@.len(),
            forall|p: int| 0 <= p < old(order)@.len() ==> #[trigger] final(order)@[p] == old(order)@[p],
            forall|j: int| 0 <= j < old(marks)@.len() && #[trigger] old(marks)@[j] ==> final(marks)@[j],
            forall|j: int|
                0 <= j < self.rows().len() && #[trigger] listed(self.rows()[j].1@, x@) ==> final(marks)@[j],
            forall|p: int|
                old(order)@.len() <= p < final(order)@.len() ==> listed(
                    self.rows()[#[trigger] final(order)@[p] as int].1@,
                    x@,
                ),
    {
        let ghost marks0 = marks@;
        let ghost order0 = order@;
        let mut j: usize = 0;
        while j < self.rows.len()
            invariant
                self.marking(marks@, order@),
                self.marking(marks0, order0),
                j <= self.rows@.len(),
                order@.len() >= order0.len(),
                forall|p: int| 0 <= p < order0.len() ==> #[trigger] order@[p] == order0[p],
                forall|a: int| 0 <= a < marks0.len() && #[trigger] marks0[a] ==> marks@[a],
                forall|a: int| 0 <= a < j && #[trigger] listed(self.rows()[a].1@, x@) ==> marks@[a],
                forall|p: int|
                    order0.len() <= p < order@.len() ==> listed(self.rows()[#[trigger] order@[p] as int].1@, x@),
            decreases self.rows@.len() - j,
        {
            if !marks[j] && holds_text(&self.rows[j].1, x) {
                let ghost m = marks@;
                let ghost o = order@;
                marks.set(j, true);
                order.push(j);
                proof {
                    lemma_count_set_one(m, j as int);
                    assert forall|p: int| order0.len() <= p < order@.len() implies listed(
                        self.rows()[#[trigger] order@[p] as int].1@,
                        x@,
                    ) by {
                        if p < o.len() {
                            assert(order@[p] == o[p]);
                        }
                    }
                    assert forall|a: int| 0 <= a < marks@.len() && #[trigger] marks@[a] implies exists|p: int|
                        0 <= p < order@.len() && order@[p] == a by {
                        if a == j {
                            assert(order@[o.len() as int] == a);
                        } else {
                            let p = choose|p: int| 0 <= p < o.len() && o[p] == a;
                            assert(order@[p] == o[p]);
                        }
                    }
                    assert forall|p: int| 0 <= p < order@.len() implies (#[trigger] order@[p]) < marks@.len()
                        && marks@[order@[p] as int] by {
                        if p < o.len() {
                            assert(order@[p] == o[p]);
                        }
                    }
                    assert forall|p: int, q: int| 0 <= p < q < order@.len() implies #[trigger] order@[p]
                        != #[trigger] order@[q] by {
                        if q == o.len() {
                            assert(order@[p] == o[p]);
                            assert(m[o[p] as int]);
                        } else {
                            assert(order@[p] == o[p] && order@[q] == o[q]);
                        }
                    }
                }
            }
            j = j + 1;
        }
    }

    /// The compounds to build again when `changed` changes: those that read
    /// it, and, in turn, those that read one of them, each once.
    pub fn cascade(&self, changed: &str) -> (r: Vec<String>)
        ensures
            distinct_ids(texts(r@)),
            forall|i: int| 0 <= i < r@.len() ==> self.is_compound(#[trigger] r@[i]@),
            forall|c: Seq<char>| #[trigger] self.depends_on(c, changed@) ==> listed(r@, c),
            forall|i: int, c: Seq<char>|
                0 <= i < r@.len() && #[trigger] self.depends_on(c, r@[i]@) ==> listed(r@, c),
            forall|i: int| 0 <= i < r@.len() ==> #[trigger] self.read_earlier(r@, changed@, i),
    {
        proof {
            use_type_invariant(&*self);
        }
        let n = self.rows.len();
        let mut marks: Vec<bool> = Vec::new();
        let mut k: usize = 0;
        while k < n
            invariant
                k <= n,
                n == self.rows@.len(),
                marks@.len() == k,
                forall|a: int| 0 <= a < k ==> !(#[trigger] marks@[a]),
                count_set(marks@) == 0,
            decreases n - k,
        {
            let ghost prev = marks@;
            marks.push(false);
            assert(marks@.drop_last() =~= prev);
            k = k + 1;
        }
        let mut order: Vec<usize> = Vec::new();
        self.mark_readers(changed, &mut marks, &mut order);
        assert forall|p: int| 0 <= p < order@.len() implies #[trigger] self.reached(order@, changed@, p) by {
            assert(listed(self.rows()[order@[p] as int].1@, changed@));
        }
        let mut next: usize = 0;
        while next < order.len()
            invariant
                self.wf(),
                n == self.rows@.len(),
                self.marking(marks@, order@),
                next <= order@.len(),
                forall|p: int| 0 <= p < order@.len() ==> #[trigger] self.reached(order@, changed@, p),
                forall|j: int|
                    0 <= j < n && #[trigger] listed(self.rows()[j].1@, changed@) ==> marks@[j],
                forall|p: int, j: int|
                    0 <= p < next && 0 <= j < n && #[trigger] listed(
                        self.rows()[j].1@,
                        self.rows()[order@[p] as int].0@,
                    ) ==> marks@[j],
            decreases n - next,
        {
            proof {
                lemma_count_bound(marks@);
            }
            let ghost order0 = order@;
            let ghost marks0 = marks@;
            let c = order[next];
            self.mark_readers(self.rows[c].0.as_str(), &mut marks, &mut order);
            proof {
                assert forall|p: int, j: int|
                    0 <= p < next + 1 && 0 <= j < n && #[trigger] listed(
                        self.rows()[j].1@,
                        self.rows()[order@[p] as int].0@,
                    ) implies marks@[j] by {
                    assert(order@[p] == order0[p]);
                    if p < next {
                        assert(marks0[j]);
                    }
                }
                assert forall|j: int|
                    0 <= j < n && #[trigger] listed(self.rows()[j].1@, changed@) implies marks@[j] by {
                    assert(marks0[j]);
                }
                assert forall|p: int| 0 <= p < order@.len() implies #[trigger] self.reached(order@, changed@, p) by {
                    if p < order0.len() {
                        assert(self.reached(order0, changed@, p));
                        assert(order@[p] == order0[p]);
                        if !listed(self.rows()[order@[p] as int].1@, changed@) {
                            let q = choose|q: int|
                                0 <= q < p && #[trigger] listed(self.rows()[order0[p] as int].1@, self.rows()[order0[q] as int].0@);
                            assert(order@[q] == order0[q]);
                        }
                    } else {
                        assert(order@[next as int] == order0[next as int]);
                        assert(listed(self.rows()[order@[p] as int].1@, self.rows()[order@[next as int] as int].0@));
                    }
                }
            }
            next = next + 1;
        }
        let mut out: Vec<String> = Vec::new();
        let mut p: usize = 0;
        while p < order.len()
            invariant
                self.wf(),
                self.marking(marks@, order@),
                p <= order@.len(),
                out@.len() == p,
                forall|a: int| 0 <= a < p ==> #[trigger] out@[a]@ == self.rows()[order@[a] as int].0@,
            decreases order@.len() - p,
        {
            out.push(self.rows[order[p]].0.clone());
            p = p + 1;
        }
        proof {
            assert forall|a: int, b: int| 0 <= a < b < out@.len() implies #[trigger] texts(out@)[a]
                != #[trigger] texts(out@)[b] by {
                assert(out@[a]@ == self.rows()[order@[a] as int].0@);
                assert(out@[b]@ == self.rows()[order@[b] as int].0@);
            }
            assert forall|i: int| 0 <= i < out@.len() implies #[trigger] self.read_earlier(out@, changed@, i) by {
                assert(self.reached(order@, changed@, i));
                let k = order@[i] as int;
                assert(out@[i]@ == self.rows()[k].0@);
                if listed(self.rows()[k].1@, changed@) {
                    assert(self.depends_on(out@[i]@, changed@));
                } else {
                    let q = choose|q: int|
                        0 <= q < i && #[trigger] listed(self.rows()[order@[i] as int].1@, self.rows()[order@[q] as int].0@);
                    assert(out@[q]@ == self.rows()[order@[q] as int].0@);
                    assert(self.depends_on(out@[i]@, out@[q]@));
                }
            }
            assert forall|i: int| 0 <= i < out@.len() implies self.is_compound(#[trigger] out@[i]@) by {
                assert(out@[i]@ == self.rows()[order@[i] as int].0@);
            }
            assert forall|c: Seq<char>| #[trigger] self.depends_on(c, changed@) implies listed(out@, c) by {
                let j = choose|j: int|
                    0 <= j < self.rows().len() && #[trigger] self.rows()[j].0@ == c && listed(
                        self.rows()[j].1@,
                        changed@,
                    );
                assert(marks@[j]);
                let q = choose|q: int| 0 <= q < order@.len() && order@[q] == j;
                assert(out@[q]@ == c);
            }
            assert forall|i: int, c: Seq<char>|
                0 <= i < out@.len() && #[trigger] self.depends_on(c, out@[i]@) implies listed(out@, c) by {
                let j = choose|j: int|
                    0 <= j < self.rows().len() && #[trigger] self.rows()[j].0@ == c && listed(
                        self.rows()[j].1@,
                        out@[i]@,
                    );
                assert(out@[i]@ == self.rows()[order@[i] as int].0@);
                assert(listed(self.rows()[j].1@, self.rows()[order@[i] as int].0@));
                assert(marks@[j]);
                let q = choose|q: int| 0 <= q < order@.len() && order@[q] == j;
                assert(out@[q]@ == c);
            }
        }
        out
    }
}

} // verus!
