//! Matching identifiers against many selectors in one pass.
pub mod builder;
mod error;
mod glob;
pub mod selector;

use std::borrow::Cow;
use std::str::FromStr;

use globset::GlobSet;
use vstd::prelude::*;

use crate::format::encoding::cow_text;
use crate::id::{cow_id, Id, ToId};
use builder::Builder;
pub use error::{Error, Result};
use glob::{everything, glob_match, matches_everything, set_is_match, set_len, set_matches, set_patterns};
pub use selector::{Selector, ToSelector};

verus! {

/// The text that an absent optional component is matched as: a
/// noncharacter, which no legal component holds.
pub open spec fn sentinel() -> Seq<char> {
    seq!['\u{FFFE}']
}

/// Whether component `c` of an identifier view is an absent optional
/// component: an empty binding (2) or fragment (5).
pub open spec fn absent(v: Seq<Seq<char>>, c: int) -> bool {
    (c == 2 || c == 5) && v[c].len() == 0
}

/// What component `c` of an identifier view is matched as by
/// [`Matcher::is_match`].
pub open spec fn probe(v: Seq<Seq<char>>, c: int) -> Seq<char> {
    if absent(v, c) {
        sentinel()
    } else {
        v[c]
    }
}

/// The component that step `k` of [`Matcher::matches`] tests: path, context,
/// scheme, binding, fragment.
pub open spec fn step(k: int) -> int {
    if k == 0 {
        4
    } else if k == 1 {
        3
    } else if k == 2 {
        1
    } else if k == 3 {
        2
    } else {
        5
    }
}

/// A matcher: the patterns of any number of selectors, compiled per
/// component into five glob sets, selector `i` at index `i` of each.
#[derive(Clone, Debug)]
pub struct Matcher {
    pub(crate) scheme: GlobSet,
    pub(crate) binding: GlobSet,
    pub(crate) context: GlobSet,
    pub(crate) path: GlobSet,
    pub(crate) fragment: GlobSet,
}

impl Matcher {
    /// The patterns for component `c` (1 to 5: scheme, binding, context,
    /// path, fragment), one per selector.
    pub closed spec fn column(self, c: int) -> Seq<Seq<char>> {
        if c == 1 {
            set_patterns(self.scheme)
        } else if c == 2 {
            set_patterns(self.binding)
        } else if c == 3 {
            set_patterns(self.context)
        } else if c == 4 {
            set_patterns(self.path)
        } else {
            set_patterns(self.fragment)
        }
    }

    /// The number of selectors.
    pub open spec fn count(self) -> int {
        self.column(1).len() as int
    }

    /// Well-formedness: every component has one pattern per selector.
    pub open spec fn wf(self) -> bool {
        &&& self.count() <= usize::MAX
        &&& self.column(2).len() == self.count()
        &&& self.column(3).len() == self.count()
        &&& self.column(4).len() == self.count()
        &&& self.column(5).len() == self.count()
        &&& forall|c: int, i: int|
            1 <= c <= 5 && 0 <= i < self.column(c).len() && #[trigger] self.column(c)[i] == everything()
                ==> matches_everything(self.column(c)[i])
    }

    /// Whether the pattern of selector `i` for component `c` matches the
    /// identifier view `v`; an absent optional component matches.
    pub open spec fn hit(self, v: Seq<Seq<char>>, c: int, i: int) -> bool {
        absent(v, c) || glob_match(self.column(c)[i], v[c])
    }

    /// Whether selector `i` matches the identifier view `v` in all five
    /// components.
    pub open spec fn selects(self, v: Seq<Seq<char>>, i: int) -> bool {
        &&& self.hit(v, 1, i)
        &&& self.hit(v, 2, i)
        &&& self.hit(v, 3, i)
        &&& self.hit(v, 4, i)
        &&& self.hit(v, 5, i)
    }

    /// The selectors below `n` that match the identifier view `v`, in
    /// ascending order.
    pub open spec fn selected(self, v: Seq<Seq<char>>, n: int) -> Seq<usize>
        decreases n,
    {
        if n <= 0 {
            Seq::empty()
        } else if self.selects(v, n - 1) {
            self.selected(v, n - 1).push((n - 1) as usize)
        } else {
            self.selected(v, n - 1)
        }
    }

    /// The number of the first `k` steps in which selector `i` matches.
    pub open spec fn hits(self, v: Seq<Seq<char>>, i: int, k: int) -> int
        decreases k,
    {
        if k <= 0 {
            0
        } else {
            self.hits(v, i, k - 1) + if self.hit(v, step(k - 1), i) {
                1int
            } else {
                0int
            }
        }
    }

    /// Whether some pattern for component `c` matches what
    /// [`Matcher::is_match`] tests component `c` of `v` as.
    pub open spec fn column_accepts(self, v: Seq<Seq<char>>, c: int) -> bool {
        exists|i: int| 0 <= i < self.column(c).len() && glob_match(self.column(c)[i], probe(v, c))
    }

    /// Whether every component of `v` is matched by some pattern for it.
    pub open spec fn accepts(self, v: Seq<Seq<char>>) -> bool {
        &&& self.column_accepts(v, 1)
        &&& self.column_accepts(v, 2)
        &&& self.column_accepts(v, 3)
        &&& self.column_accepts(v, 4)
        &&& self.column_accepts(v, 5)
    }

    /// Creates a builder.
    pub fn builder() -> (r: Builder)
        ensures
            r.wf(),
            forall|c: int| 1 <= c <= 5 ==> #[trigger] r.column(c) == Seq::<Seq<char>>::empty(),
    {
        Builder::new()
    }

    /// Returns whether, in every component, some selector's pattern matches
    /// the identifier; an absent binding or fragment is tested as the
    /// sentinel, which only a pattern such as `**` matches.
    pub fn is_match<I: ToId>(&self, id: I) -> (r: Result<bool>)
        requires
            id.convertible(),
        ensures
            id.id_view() matches Err(e) ==> r == Err::<bool, Error>(Error::Id(e)),
            id.id_view() matches Ok(v) ==> r == Ok::<bool, Error>(self.accepts(v)),
    {
        let id = match id.to_id() {
            Ok(id) => id,
            Err(e) => return Err(Error::Id(e)),
        };
        let id: &Id = match &id {
            Cow::Borrowed(b) => *b,
            Cow::Owned(o) => o,
        };
        proof {
            id.lemma_view();
        }
        let binding = id.binding();
        let fragment = id.fragment();
        Ok(compare(&self.path, Some(cow_text(&id.path()))) && compare(
            &self.context,
            Some(cow_text(&id.context())),
        ) && compare(&self.scheme, Some(cow_text(&id.scheme()))) && compare(
            &self.binding,
            as_text(&binding),
        ) && compare(&self.fragment, as_text(&fragment)))
    }

    /// Returns the indices of the selectors that match the identifier in all
    /// five components, in ascending order; an absent binding or fragment
    /// matches any pattern.
    pub fn matches<I: ToId>(&self, id: I) -> (r: Result<Vec<usize>>)
        requires
            self.wf(),
            id.convertible(),
        ensures
            id.id_view() matches Err(e) ==> r == Err::<Vec<usize>, Error>(Error::Id(e)),
            id.id_view() matches Ok(v) ==> r matches Ok(m) && m@ == self.selected(v, self.count()),
    {
        let id = match id.to_id() {
            Ok(id) => id,
            Err(e) => return Err(Error::Id(e)),
        };
        let id: &Id = match &id {
            Cow::Borrowed(b) => *b,
            Cow::Owned(o) => o,
        };
        proof {
            id.lemma_view();
        }
        let ghost v = id@;
        let n = set_len(&self.scheme);
        let mut slots: Vec<u8> = Vec::new();
        while slots.len() < n
            invariant
                slots@.len() <= n,
                forall|i: int| 0 <= i < slots@.len() ==> slots@[i] == 0,
            decreases n - slots@.len(),
        {
            slots.push(0);
        }
        let path = id.path();
        let context = id.context();
        let scheme = id.scheme();
        let binding = id.binding();
        let fragment = id.fragment();
        if !self.tally(0, &self.path, Some(cow_text(&path)), &mut slots, Ghost(v)) {
            proof {
                self.lemma_none_selected(v, 0, self.count());
            }
            return Ok(Vec::new());
        }
        if !self.tally(1, &self.context, Some(cow_text(&context)), &mut slots, Ghost(v)) {
            proof {
                self.lemma_none_selected(v, 1, self.count());
            }
            return Ok(Vec::new());
        }
        if !self.tally(2, &self.scheme, Some(cow_text(&scheme)), &mut slots, Ghost(v)) {
            proof {
                self.lemma_none_selected(v, 2, self.count());
            }
            return Ok(Vec::new());
        }
        if !self.tally(3, &self.binding, as_text(&binding), &mut slots, Ghost(v)) {
            proof {
                self.lemma_none_selected(v, 3, self.count());
            }
            return Ok(Vec::new());
        }
        if !self.tally(4, &self.fragment, as_text(&fragment), &mut slots, Ghost(v)) {
            proof {
                self.lemma_none_selected(v, 4, self.count());
            }
            return Ok(Vec::new());
        }
        let mut out: Vec<usize> = Vec::new();
        let mut i: usize = 0;
        while i < n
            invariant
                i <= n == self.count(),
                slots@.len() == n,
                forall|k: int| 0 <= k < n ==> slots@[k] == self.hits(v, k, 5),
                out@ == self.selected(v, i as int),
            decreases n - i,
        {
            proof {
                self.lemma_hits_all(v, i as int);
            }
            if slots[i] == 5 {
                out.push(i);
            }
            i += 1;
        }
        Ok(out)
    }

    /// Counts, for every selector, whether its pattern for the component of
    /// step `k` matches; returns `false`, and counts nothing, if none does.
    fn tally(
        &self,
        k: usize,
        set: &GlobSet,
        value: Option<&str>,
        slots: &mut Vec<u8>,
        Ghost(v): Ghost<Seq<Seq<char>>>,
    ) -> (r: bool)
        requires
            self.wf(),
            k < 5,
            v.len() == 6,
            set_patterns(*set) == self.column(step(k as int)),
            old(slots)@.len() == self.count(),
            forall|i: int| 0 <= i < self.count() ==> old(slots)@[i] == self.hits(v, i, k as int),
            value is None <==> absent(v, step(k as int)),
            value matches Some(t) ==> t@ == v[step(k as int)],
        ensures
            final(slots)@.len() == self.count(),
            r ==> forall|i: int| 0 <= i < self.count() ==> final(slots)@[i] == self.hits(v, i, k + 1),
            !r ==> forall|i: int| 0 <= i < self.count() ==> !self.hit(v, step(k as int), i),
    {
        let ghost c = step(k as int);
        let ghost base = slots@;
        let ghost n = self.count();
        assert forall|i: int| 0 <= i < n implies base[i] <= k by {
            self.lemma_hits_bound(v, i, k as int);
        }
        match value {
            Some(t) => {
                let found = set_matches(set, t);
                if found.len() == 0 {
                    assert forall|i: int| 0 <= i < n implies !self.hit(v, c, i) by {
                        if glob_match(self.column(c)[i], v[c]) {
                            assert(found@.contains(i as usize));
                        }
                    }
                    return false;
                }
                let mut p: usize = 0;
                while p < found.len()
                    invariant
                        slots@.len() == n,
                        p <= found@.len(),
                        k < 5,
                        n == set_patterns(*set).len(),
                        forall|q: int| 0 <= q < found@.len() ==> #[trigger] found@[q] < n,
                        forall|a: int, b: int| 0 <= a < b < found@.len() ==> found@[a] < found@[b],
                        forall|i: int| 0 <= i < n ==> base[i] <= k,
                        forall|i: int| 0 <= i < n ==> slots@[i] == base[i] + if found@.subrange(0, p as int).contains(i as usize) {
                            1int
                        } else {
                            0int
                        },
                    decreases found@.len() - p,
                {
                    let idx = found[p];
                    proof {
                        if found@.subrange(0, p as int).contains(idx) {
                            let pre = found@.subrange(0, p as int);
                            let q = choose|q: int| 0 <= q < pre.len() && #[trigger] pre[q] == idx;
                            assert(found@[q] < found@[p as int]);
                        }
                        assert(!found@.subrange(0, p as int).contains(idx));
                        assert(idx < n);
                    }
                    let cur = slots[idx];
                    assert(cur == base[idx as int]);
                    let ghost before = slots@;
                    slots.set(idx, cur + 1);
                    proof {
                        let pre = found@.subrange(0, p as int);
                        let post = found@.subrange(0, p + 1);
                        assert(post =~= pre.push(idx));
                        assert forall|x: usize| #[trigger] post.contains(x) == (pre.contains(x) || x == idx) by {
                            if post.contains(x) && x != idx {
                                let q = choose|q: int| 0 <= q < post.len() && #[trigger] post[q] == x;
                                assert(pre[q] == x);
                            }
                            if pre.contains(x) {
                                let q = choose|q: int| 0 <= q < pre.len() && #[trigger] pre[q] == x;
                                assert(post[q] == x);
                            }
                            if x == idx {
                                assert(post[p as int] == x);
                            }
                        }
                        assert forall|i: int| 0 <= i < n implies slots@[i] == base[i] + if post.contains(i as usize) {
                            1int
                        } else {
                            0int
                        } by {
                            assert(post.contains(i as usize) == (pre.contains(i as usize) || i as usize == idx));
                            assert(before[i] == base[i] + if pre.contains(i as usize) {
                                1int
                            } else {
                                0int
                            });
                            if i != idx as int {
                                assert(i as usize != idx);
                                assert(slots@[i] == before[i]);
                            } else {
                                assert(slots@[i] == cur + 1);
                            }
                        }
                    }
                    p += 1;
                }
                proof {
                    assert(found@.subrange(0, found@.len() as int) =~= found@);
                    assert forall|i: int| 0 <= i < n implies slots@[i] == self.hits(v, i, k + 1) by {
                        assert(self.hit(v, c, i) == glob_match(set_patterns(*set)[i], t@));
                    }
                }
                true
            },
            None => {
                let mut i: usize = 0;
                while i < slots.len()
                    invariant
                        slots@.len() == n,
                        i <= n,
                        k < 5,
                        forall|j: int| 0 <= j < n ==> base[j] <= k,
                        forall|j: int| 0 <= j < i ==> slots@[j] == base[j] + 1,
                        forall|j: int| i <= j < n ==> slots@[j] == base[j],
                    decreases n - i,
                {
                    let cur = slots[i];
                    assert(cur == base[i as int]);
                    assert(base[i as int] <= k);
                    slots.set(i, cur + 1);
                    i += 1;
                }
                true
            },
        }
    }

    proof fn lemma_hits_bound(self, v: Seq<Seq<char>>, i: int, k: int)
        requires
            0 <= k,
        ensures
            0 <= self.hits(v, i, k) <= k,
        decreases k,
    {
        if k > 0 {
            self.lemma_hits_bound(v, i, k - 1);
        }
    }

    proof fn lemma_hits_all(self, v: Seq<Seq<char>>, i: int)
        ensures
            (self.hits(v, i, 5) == 5) == self.selects(v, i),
    {
        reveal_with_fuel(Matcher::hits, 6);
        self.lemma_hits_bound(v, i, 4);
        self.lemma_hits_bound(v, i, 3);
        self.lemma_hits_bound(v, i, 2);
        self.lemma_hits_bound(v, i, 1);
    }

    proof fn lemma_none_selected(self, v: Seq<Seq<char>>, k: int, n: int)
        requires
            0 <= k < 5,
            n <= self.count(),
            forall|i: int| 0 <= i < self.count() ==> !self.hit(v, step(k), i),
        ensures
            self.selected(v, n) == Seq::<usize>::empty(),
        decreases n,
    {
        if n > 0 {
            self.lemma_none_selected(v, k, n - 1);
            assert(!self.hit(v, step(k), n - 1));
        }
    }
}

impl FromStr for Matcher {
    type Err = Error;

    fn from_str(value: &str) -> Result<Self> {
        let mut builder = Matcher::builder();
        match builder.add(value) {
            Ok(()) => builder.build(),
            Err(e) => Err(e),
        }
    }
}

/// The selectors that [`Matcher::matches`] reports are exactly those that
/// match the identifier in all five components, each once, in ascending
/// order.
pub proof fn lemma_selected_exactly(m: Matcher, v: Seq<Seq<char>>, n: int)
    requires
        m.wf(),
        0 <= n <= m.count(),
    ensures
        forall|i: int| 0 <= i < m.selected(v, n).len() ==> #[trigger] m.selected(v, n)[i] < n,
        forall|a: int, b: int| 0 <= a < b < m.selected(v, n).len() ==> m.selected(v, n)[a] < m.selected(v, n)[b],
        forall|i: int| 0 <= i < n ==> (m.selected(v, n).contains(i as usize) <==> #[trigger] m.selects(v, i)),
    decreases n,
{
    if n > 0 {
        lemma_selected_exactly(m, v, n - 1);
        let s0 = m.selected(v, n - 1);
        let s1 = m.selected(v, n);
        if m.selects(v, n - 1) {
            assert(s1 == s0.push((n - 1) as usize));
            assert forall|a: int, b: int| 0 <= a < b < s1.len() implies s1[a] < s1[b] by {
                if b == s1.len() - 1 {
                    assert(s0[a] < n - 1);
                }
            }
        }
        assert forall|i: int| 0 <= i < n implies (s1.contains(i as usize) <==> #[trigger] m.selects(v, i)) by {
            if s1.contains(i as usize) && i < n - 1 {
                let q = choose|q: int| 0 <= q < s1.len() && #[trigger] s1[q] == i as usize;
                if q < s0.len() {
                    assert(s0[q] == i as usize);
                }
            }
            if i < n - 1 && m.selects(v, i) {
                let q = choose|q: int| 0 <= q < s0.len() && #[trigger] s0[q] == i as usize;
                assert(s1[q] == i as usize);
            }
            if i == n - 1 && m.selects(v, i) {
                assert(s1[s1.len() - 1] == i as usize);
            }
            if i == n - 1 && s1.contains(i as usize) && !m.selects(v, i) {
                let q = choose|q: int| 0 <= q < s1.len() && #[trigger] s1[q] == i as usize;
                assert(s0[q] < n - 1);
            }
        }
    }
}

/// A selector that matches an identifier in all five components makes
/// [`Matcher::is_match`] hold, where its patterns for the identifier's absent
/// optional components match the sentinel.
pub proof fn lemma_selected_accepts(m: Matcher, v: Seq<Seq<char>>, i: int)
    requires
        m.wf(),
        v.len() == 6,
        0 <= i < m.count(),
        m.selects(v, i),
        absent(v, 2) ==> glob_match(m.column(2)[i], sentinel()),
        absent(v, 5) ==> glob_match(m.column(5)[i], sentinel()),
    ensures
        m.accepts(v),
{
    assert(glob_match(m.column(1)[i], probe(v, 1)));
    assert(glob_match(m.column(2)[i], probe(v, 2)));
    assert(glob_match(m.column(3)[i], probe(v, 3)));
    assert(glob_match(m.column(4)[i], probe(v, 4)));
    assert(glob_match(m.column(5)[i], probe(v, 5)));
}

/// With a single selector, [`Matcher::is_match`] holds exactly when
/// [`Matcher::matches`] is not empty, where the selector's patterns for the
/// identifier's absent optional components match the sentinel.
pub proof fn lemma_single_selector(m: Matcher, v: Seq<Seq<char>>)
    requires
        m.wf(),
        v.len() == 6,
        m.count() == 1,
        absent(v, 2) ==> glob_match(m.column(2)[0], sentinel()),
        absent(v, 5) ==> glob_match(m.column(5)[0], sentinel()),
    ensures
        m.accepts(v) == (m.selected(v, m.count()).len() > 0),
{
    assert(m.selected(v, 0) == Seq::<usize>::empty());
    if m.selects(v, 0) {
        lemma_selected_accepts(m, v, 0);
    }
    if m.accepts(v) {
        assert(m.column_accepts(v, 1));
        assert(m.column_accepts(v, 2));
        assert(m.column_accepts(v, 3));
        assert(m.column_accepts(v, 4));
        assert(m.column_accepts(v, 5));
        assert(m.selects(v, 0));
    }
}

/// A selector whose patterns are all `**`, as the builder compiles a
/// selector whose components are all empty, matches every identifier.
pub proof fn lemma_wildcard(m: Matcher, v: Seq<Seq<char>>, i: int)
    requires
        m.wf(),
        v.len() == 6,
        0 <= i < m.count(),
        forall|c: int| 1 <= c <= 5 ==> #[trigger] m.column(c)[i] == everything(),
    ensures
        m.selects(v, i),
        m.selected(v, m.count()).contains(i as usize),
        m.accepts(v),
{
    assert forall|c: int| 1 <= c <= 5 implies #[trigger] matches_everything(m.column(c)[i]) by {
        assert(m.column(c)[i] == everything());
    }
    assert(matches_everything(m.column(1)[i]));
    assert(matches_everything(m.column(2)[i]));
    assert(matches_everything(m.column(3)[i]));
    assert(matches_everything(m.column(4)[i]));
    assert(matches_everything(m.column(5)[i]));
    assert(glob_match(m.column(1)[i], v[1]));
    assert(glob_match(m.column(2)[i], v[2]));
    assert(glob_match(m.column(3)[i], v[3]));
    assert(glob_match(m.column(4)[i], v[4]));
    assert(glob_match(m.column(5)[i], v[5]));
    lemma_selected_exactly(m, v, m.count());
    assert(glob_match(m.column(2)[i], sentinel()));
    assert(glob_match(m.column(5)[i], sentinel()));
    lemma_selected_accepts(m, v, i);
}

/// Borrows the text of an optional `Cow`.
fn as_text<'a>(value: &'a Option<Cow<'a, str>>) -> (r: Option<&'a str>)
    ensures
        value is None <==> r is None,
        value matches Some(v) ==> r matches Some(t) && t@ == v@,
{
    match value {
        Some(v) => Some(cow_text(v)),
        None => None,
    }
}

/// Whether some pattern of the set matches the value, or the sentinel where
/// the value is absent.
fn compare(component: &GlobSet, value: Option<&str>) -> (r: bool)
    ensures
        r == (exists|i: int| 0 <= i < set_patterns(*component).len() && glob_match(
            set_patterns(*component)[i],
            match value {
                Some(t) => t@,
                None => sentinel(),
            },
        )),
{
    proof {
        reveal_strlit("\u{FFFE}");
        assert("\u{FFFE}"@ =~= sentinel());
    }
    match value {
        Some(t) => set_is_match(component, t),
        None => set_is_match(component, "\u{FFFE}"),
    }
}

} // verus!
