//! Fuzzy sets and universes.
//!
//! A fuzzy set pairs an optional membership function with a sparse cache of
//! previously graded sample points; only strictly positive degrees are kept.
//! A universe is a named registry of fuzzy sets sharing one variable's
//! domain.

use vstd::prelude::*;
use crate::{UNIT, KEY_LIMIT, valid_key};
use crate::errors::FuzzyError;
use crate::functions::{Membership, mem_value};

verus! {

/// A cache entry: a sample point and its degree.
pub type Entry = (i64, u64);

/// Whether some cache entry carries the key `k`.
pub open spec fn cache_has(c: Seq<Entry>, k: i64) -> bool {
    exists|i: int| 0 <= i < c.len() && c[i].0 == k
}

/// The degree stored for key `k` (meaningful when `cache_has(c, k)`).
pub open spec fn cache_val(c: Seq<Entry>, k: i64) -> u64 {
    c[choose|i: int| 0 <= i < c.len() && c[i].0 == k].1
}

/// No two cache entries share a key.
pub open spec fn unique_keys(c: Seq<Entry>) -> bool {
    forall|i: int, j: int| 0 <= i < j < c.len() ==> c[i].0 != c[j].0
}

/// Keys are unique and representable; every stored degree is strictly
/// positive and at most `UNIT`.
pub open spec fn cache_wf(c: Seq<Entry>) -> bool {
    &&& unique_keys(c)
    &&& forall|i: int| 0 <= i < c.len() ==> valid_key(#[trigger] c[i].0) && 0 < c[i].1 <= UNIT
}

/// The mapping a cache stands for.
pub open spec fn entries_map(c: Seq<Entry>) -> Map<i64, u64>
    decreases c.len(),
{
    if c.len() == 0 {
        Map::empty()
    } else {
        entries_map(c.drop_last()).insert(c.last().0, c.last().1)
    }
}

/// How many entries carry the key `k`.
pub open spec fn count_key(c: Seq<Entry>, k: i64) -> int
    decreases c.len(),
{
    if c.len() == 0 {
        0
    } else {
        count_key(c.drop_last(), k) + if c.last().0 == k { 1int } else { 0int }
    }
}

/// With unique keys, the mapping of a cache holds exactly its entries.
pub proof fn lemma_entries_map_char(c: Seq<Entry>)
    requires
        unique_keys(c),
    ensures
        forall|k: i64| entries_map(c).contains_key(k) <==> cache_has(c, k),
        forall|i: int| 0 <= i < c.len() ==> entries_map(c)[#[trigger] c[i].0] == c[i].1,
    decreases c.len(),
{
    if c.len() > 0 {
        lemma_entries_map_char(c.drop_last());
        assert forall|k: i64| entries_map(c).contains_key(k) <==> cache_has(c, k) by {
            if entries_map(c).contains_key(k) {
                if k == c.last().0 {
                    assert(c[c.len() - 1].0 == k);
                } else {
                    assert(entries_map(c.drop_last()).contains_key(k));
                    assert(cache_has(c.drop_last(), k));
                    let i = choose|i: int|
                        0 <= i < c.drop_last().len() && c.drop_last()[i].0 == k;
                    assert(c[i] == c.drop_last()[i]);
                    assert(c[i].0 == k);
                }
            }
            if cache_has(c, k) {
                let i = choose|i: int| 0 <= i < c.len() && c[i].0 == k;
                if i < c.len() - 1 {
                    assert(c.drop_last()[i] == c[i]);
                    assert(cache_has(c.drop_last(), k));
                    assert(entries_map(c.drop_last()).contains_key(k));
                }
            }
        }
        assert forall|i: int| 0 <= i < c.len() implies entries_map(c)[#[trigger] c[i].0]
            == c[i].1 by {
            if i < c.len() - 1 {
                assert(c[i].0 != c.last().0);
                assert(c.drop_last()[i] == c[i]);
            }
        }
    }
}

/// With unique keys, a key is carried by exactly one entry or by none.
pub proof fn lemma_count_key(c: Seq<Entry>, k: i64)
    requires
        unique_keys(c),
    ensures
        count_key(c, k) == if cache_has(c, k) { 1int } else { 0int },
    decreases c.len(),
{
    if c.len() > 0 {
        lemma_count_key(c.drop_last(), k);
        if c.last().0 == k {
            assert(c[c.len() - 1].0 == k);
            assert(!cache_has(c.drop_last(), k));
        } else {
            if cache_has(c, k) {
                let i = choose|i: int| 0 <= i < c.len() && c[i].0 == k;
                assert(c.drop_last()[i].0 == k);
            }
            if cache_has(c.drop_last(), k) {
                let i = choose|i: int| 0 <= i < c.len() - 1 && c.drop_last()[i].0 == k;
                assert(c[i].0 == k);
            }
        }
    }
}

/// The abstract state of a fuzzy set.
pub struct SetView {
    /// The set's name.
    pub name: Seq<char>,
    /// The membership function, absent for a snapshot set.
    pub membership: Option<Membership>,
    /// The cached sample points with their degrees, in insertion order.
    pub cache: Seq<Entry>,
}

/// A fuzzy set: a named, self-memoizing membership evaluator.
#[derive(Debug)]
pub struct FuzzySet {
    /// The set's name.
    pub name: String,
    membership: Option<Membership>,
    cache: Vec<Entry>,
}

impl View for FuzzySet {
    type V = SetView;

    closed spec fn view(&self) -> SetView {
        SetView { name: self.name@, membership: self.membership, cache: self.cache@ }
    }
}

/// The set's invariant: a well-formed cache that, for a set backed by a
/// membership function, memoizes exactly that function.
pub open spec fn set_wf(s: SetView) -> bool {
    &&& cache_wf(s.cache)
    &&& match s.membership {
        Some(m) => m.wf() && forall|i: int|
            0 <= i < s.cache.len() ==> #[trigger] s.cache[i].1 == mem_value(m, s.cache[i].0),
        None => true,
    }
}

/// The degree `check` reports, or the failure it signals.
pub open spec fn spec_check(s: SetView, x: i64) -> Result<u64, FuzzyError> {
    if !valid_key(x) {
        Err(FuzzyError::InvalidDomainValue)
    } else {
        match s.membership {
            None => Err(FuzzyError::InvalidMembershipUse),
            Some(m) => Ok(mem_value(m, x)),
        }
    }
}

/// The set state after `check`: a positive degree for a new key is
/// memoized, everything else is left as it was.
pub open spec fn spec_check_post(s: SetView, x: i64) -> SetView {
    match spec_check(s, x) {
        Ok(d) => if !cache_has(s.cache, x) && d > 0 {
            SetView { cache: s.cache.push((x, d)), ..s }
        } else {
            s
        },
        Err(_) => s,
    }
}

impl FuzzySet {
    /// The set's invariant.
    pub open spec fn wf(&self) -> bool {
        set_wf(self@)
    }

    /// A fresh memoizing set for a membership function.
    pub fn new_with_mem(name: String, membership: Membership) -> (s: FuzzySet)
        requires
            membership.wf(),
        ensures
            s@ == (SetView { name: name@, membership: Some(membership), cache: Seq::empty() }),
            s.wf(),
    {
        FuzzySet { name, membership: Some(membership), cache: Vec::new() }
    }

    /// A snapshot set defined entirely by the given cache entries.
    pub fn new_with_domain(name: String, entries: Vec<Entry>) -> (s: FuzzySet)
        requires
            cache_wf(entries@),
        ensures
            s@ == (SetView { name: name@, membership: None, cache: entries@ }),
            s.wf(),
    {
        FuzzySet { name, membership: None, cache: entries }
    }

    /// The empty snapshot set.
    pub fn new_empty() -> (s: FuzzySet)
        ensures
            s@.name == "Empty"@,
            s@.membership is None,
            s@.cache == Seq::<Entry>::empty(),
            s.wf(),
    {
        FuzzySet { name: "Empty".to_owned(), membership: None, cache: Vec::new() }
    }

    /// The set's name, by reference.
    pub fn name(&self) -> (n: &String)
        ensures
            n@ == self@.name,
    {
        &self.name
    }

    /// The stored membership function, if any.
    pub fn membership(&self) -> (m: Option<Membership>)
        ensures
            m == self@.membership,
    {
        self.membership
    }

    /// How many sample points the cache holds.
    pub fn entry_count(&self) -> (n: usize)
        ensures
            n == self@.cache.len(),
    {
        self.cache.len()
    }

    /// The cache entry at a position.
    pub fn entry_at(&self, i: usize) -> (e: Entry)
        requires
            i < self@.cache.len(),
        ensures
            e == self@.cache[i as int],
    {
        self.cache[i]
    }

    /// The degree cached for a sample point, if one is stored.
    pub fn lookup(&self, x: i64) -> (r: Option<u64>)
        requires
            unique_keys(self@.cache),
        ensures
            match r {
                Some(d) => cache_has(self@.cache, x) && d == cache_val(self@.cache, x),
                None => !cache_has(self@.cache, x),
            },
    {
        let n = self.cache.len();
        let mut i: usize = 0;
        while i < n
            invariant
                unique_keys(self@.cache),
                n == self@.cache.len(),
                i <= n,
                forall|j: int| 0 <= j < i ==> self@.cache[j].0 != x,
            decreases n - i,
        {
            if self.cache[i].0 == x {
                return Some(self.cache[i].1);
            }
            i += 1;
        }
        None
    }

    /// The membership degree of the sample `x`, memoized.
    ///
    /// A key outside the representable domain is rejected; querying a
    /// snapshot set through this path is an invariant violation reported as
    /// an error. A positive degree for a new key is stored; a degree of
    /// zero is returned but never retained.
    pub fn check(&mut self, x: i64) -> (r: Result<u64, FuzzyError>)
        requires
            old(self).wf(),
        ensures
            final(self).wf(),
            r == spec_check(old(self)@, x),
            r matches Ok(d) ==> d <= UNIT,
            final(self)@ == spec_check_post(old(self)@, x),
    {
        if x < -KEY_LIMIT || x > KEY_LIMIT {
            return Err(FuzzyError::InvalidDomainValue);
        }
        let m = match &self.membership {
            Some(m) => *m,
            None => { return Err(FuzzyError::InvalidMembershipUse); },
        };
        let n = self.cache.len();
        let mut i: usize = 0;
        while i < n
            invariant
                self == old(self),
                self.wf(),
                self@.membership == Some(m),
                n == self@.cache.len(),
                i <= n,
                forall|j: int| 0 <= j < i ==> self@.cache[j].0 != x,
            decreases n - i,
        {
            if self.cache[i].0 == x {
                assert(cache_has(self@.cache, x));
                return Ok(self.cache[i].1);
            }
            i += 1;
        }
        assert(!cache_has(old(self)@.cache, x));
        let d = m.grade(x);
        if d > 0 {
            self.cache.push((x, d));
        }
        Ok(d)
    }
}

/// Checking the same sample twice reports the same degree both times, and
/// afterwards the cache holds exactly one entry for it when the degree is
/// positive, none when it is zero.
pub proof fn lemma_check_idempotent(s: SetView, x: i64)
    requires
        set_wf(s),
        s.membership is Some,
        valid_key(x),
    ensures
        spec_check(spec_check_post(s, x), x) == spec_check(s, x),
        spec_check_post(spec_check_post(s, x), x) == spec_check_post(s, x),
        count_key(spec_check_post(spec_check_post(s, x), x).cache, x) == (
        if spec_check(s, x)->Ok_0 > 0 {
            1int
        } else {
            0int
        }),
{
    let m = s.membership->0;
    let d = mem_value(m, x);
    let s1 = spec_check_post(s, x);
    if !cache_has(s.cache, x) && d > 0 {
        assert(s1.cache == s.cache.push((x, d)));
        assert(s1.cache[s.cache.len() as int].0 == x);
        assert(cache_has(s1.cache, x));
        assert(unique_keys(s1.cache)) by {
            assert forall|i: int, j: int| 0 <= i < j < s1.cache.len() implies s1.cache[i].0
                != s1.cache[j].0 by {
                if j < s.cache.len() {
                    assert(s.cache[i].0 != s.cache[j].0);
                }
            }
        }
        lemma_count_key(s1.cache, x);
    } else {
        assert(s1 == s);
        lemma_count_key(s.cache, x);
        if d > 0 {
            assert(cache_has(s.cache, x));
        } else {
            if cache_has(s.cache, x) {
                let i = choose|i: int| 0 <= i < s.cache.len() && s.cache[i].0 == x;
                assert(s.cache[i].1 == mem_value(m, x));
            }
            assert(!cache_has(s.cache, x));
        }
    }
}

/// The abstract state of a universe.
pub struct UniverseView {
    /// The universe's name.
    pub name: Seq<char>,
    /// Advisory sample points, for inspection only.
    pub domain: Seq<i64>,
    /// The registered sets, in registration order.
    pub sets: Seq<SetView>,
}

/// Whether the universe holds a set of the given name.
pub open spec fn has_set(ss: Seq<SetView>, name: Seq<char>) -> bool {
    exists|i: int| 0 <= i < ss.len() && ss[i].name == name
}

/// The set of the given name (meaningful when `has_set(ss, name)`).
pub open spec fn set_at(ss: Seq<SetView>, name: Seq<char>) -> SetView {
    ss[choose|i: int| 0 <= i < ss.len() && ss[i].name == name]
}

/// No two registered sets share a name.
pub open spec fn sets_unique(ss: Seq<SetView>) -> bool {
    forall|i: int, j: int| 0 <= i < j < ss.len() ==> ss[i].name != ss[j].name
}

/// The universe's invariant: distinct names, each set well formed, each set
/// backed by a membership function.
pub open spec fn uni_wf(u: UniverseView) -> bool {
    &&& sets_unique(u.sets)
    &&& forall|i: int| 0 <= i < u.sets.len() ==> set_wf(#[trigger] u.sets[i])
        && u.sets[i].membership is Some
}

/// A named registry of fuzzy sets sharing one variable's domain.
#[derive(Debug)]
pub struct UniversalSet {
    /// The universe's name.
    pub name: String,
    domain: Vec<i64>,
    sets: Vec<FuzzySet>,
}

impl View for UniversalSet {
    type V = UniverseView;

    closed spec fn view(&self) -> UniverseView {
        UniverseView {
            name: self.name@,
            domain: self.domain@,
            sets: Seq::new(self.sets@.len(), |i: int| self.sets@[i]@),
        }
    }
}

impl UniversalSet {
    /// The universe's invariant.
    pub open spec fn wf(&self) -> bool {
        uni_wf(self@)
    }

    /// A fresh universe with no domain and no sets.
    pub fn new(name: String) -> (u: UniversalSet)
        ensures
            u@.name == name@,
            u@.domain == Seq::<i64>::empty(),
            u@.sets == Seq::<SetView>::empty(),
            u.wf(),
    {
        let u = UniversalSet { name, domain: Vec::new(), sets: Vec::new() };
        proof {
            assert(u@.sets =~= Seq::<SetView>::empty());
        }
        u
    }

    /// The universe's name, by reference.
    pub fn name(&self) -> (n: &String)
        ensures
            n@ == self@.name,
    {
        &self.name
    }

    /// Replaces the advisory domain sample points.
    pub fn set_domain(&mut self, domain: Vec<i64>)
        ensures
            final(self)@ == (UniverseView { domain: domain@, ..old(self)@ }),
    {
        self.domain = domain;
        proof {
            assert(self@.sets =~= old(self)@.sets);
        }
    }

    /// The advisory domain sample points.
    pub fn domain(&self) -> (d: &Vec<i64>)
        ensures
            d@ == self@.domain,
    {
        &self.domain
    }

    /// The position of the set of the given name, if one is registered.
    pub fn find_set(&self, name: &String) -> (r: Option<usize>)
        ensures
            match r {
                Some(i) => i < self@.sets.len() && self@.sets[i as int].name == name@,
                None => !has_set(self@.sets, name@),
            },
    {
        let n = self.sets.len();
        let mut i: usize = 0;
        while i < n
            invariant
                n == self@.sets.len(),
                i <= n,
                forall|j: int| 0 <= j < i ==> self@.sets[j].name != name@,
            decreases n - i,
        {
            if self.sets[i].name == *name {
                return Some(i);
            }
            i += 1;
        }
        None
    }

    /// Registers a set under a new name; a second registration under an
    /// existing name is silently ignored, so the first one wins.
    pub fn create_set(&mut self, name: String, membership: Membership)
        requires
            old(self).wf(),
            membership.wf(),
        ensures
            final(self).wf(),
            final(self)@.name == old(self)@.name,
            final(self)@.domain == old(self)@.domain,
            final(self)@.sets == if has_set(old(self)@.sets, name@) {
                old(self)@.sets
            } else {
                old(self)@.sets.push(
                    SetView { name: name@, membership: Some(membership), cache: Seq::empty() },
                )
            },
    {
        match self.find_set(&name) {
            Some(_) => {
                proof {
                    assert(self@.sets =~= old(self)@.sets);
                }
            },
            None => {
                let s = FuzzySet::new_with_mem(name, membership);
                self.sets.push(s);
                proof {
                    assert(self@.sets =~= old(self)@.sets.push(s@));
                }
            },
        }
    }

    /// Runs `check` on the set at a position, leaving the others untouched.
    pub fn check_set_at(&mut self, si: usize, x: i64) -> (r: Result<u64, FuzzyError>)
        requires
            old(self).wf(),
            si < old(self)@.sets.len(),
        ensures
            final(self).wf(),
            final(self)@.name == old(self)@.name,
            final(self)@.domain == old(self)@.domain,
            r == spec_check(old(self)@.sets[si as int], x),
            r matches Ok(d) ==> d <= UNIT,
            final(self)@.sets == old(self)@.sets.update(
                si as int,
                spec_check_post(old(self)@.sets[si as int], x),
            ),
    {
        let mut s = self.sets.remove(si);
        let r = s.check(x);
        self.sets.insert(si, s);
        proof {
            assert(self@.sets =~= old(self)@.sets.update(
                si as int,
                spec_check_post(old(self)@.sets[si as int], x),
            ));
        }
        r
    }

    /// How many sets the universe holds.
    pub fn set_count(&self) -> (n: usize)
        ensures
            n == self@.sets.len(),
    {
        self.sets.len()
    }

    /// A shared view of the set at a position.
    pub fn set_ref(&self, i: usize) -> (s: &FuzzySet)
        requires
            i < self@.sets.len(),
        ensures
            s@ == self@.sets[i as int],
    {
        &self.sets[i]
    }

    /// Grades every registered set at `x`, memoizing as it goes, and
    /// reports each set's name with its degree; a sample outside the
    /// representable domain is rejected. Diagnostic use.
    pub fn memberships(&mut self, x: i64) -> (r: Result<Vec<(String, u64)>, FuzzyError>)
        requires
            old(self).wf(),
        ensures
            final(self).wf(),
            final(self)@.name == old(self)@.name,
            final(self)@.domain == old(self)@.domain,
            final(self)@.sets.len() == old(self)@.sets.len(),
            forall|i: int| 0 <= i < final(self)@.sets.len() ==> final(self)@.sets[i] == spec_check_post(
                old(self)@.sets[i],
                x,
            ),
            match r {
                Ok(pairs) => valid_key(x) && pairs@.len() == old(self)@.sets.len()
                    && forall|i: int| 0 <= i < old(self)@.sets.len() ==> (#[trigger] pairs@[i]).0@
                    == old(self)@.sets[i].name && pairs@[i].1 == mem_value(
                    old(self)@.sets[i].membership->0,
                    x,
                ),
                Err(e) => !valid_key(x) && e == FuzzyError::InvalidDomainValue,
            },
    {
        if x < -KEY_LIMIT || x > KEY_LIMIT {
            proof {
                assert forall|i: int| 0 <= i < self@.sets.len() implies self@.sets[i]
                    == spec_check_post(old(self)@.sets[i], x) by {}
            }
            return Err(FuzzyError::InvalidDomainValue);
        }
        let n = self.sets.len();
        let mut out: Vec<(String, u64)> = Vec::new();
        let mut i: usize = 0;
        while i < n
            invariant
                self.wf(),
                valid_key(x),
                n == self@.sets.len(),
                self@.sets.len() == old(self)@.sets.len(),
                self@.name == old(self)@.name,
                self@.domain == old(self)@.domain,
                i <= n,
                out@.len() == i,
                forall|j: int| 0 <= j < i ==> self@.sets[j] == spec_check_post(
                    old(self)@.sets[j],
                    x,
                ),
                forall|j: int| i <= j < n ==> self@.sets[j] == old(self)@.sets[j],
                forall|j: int| 0 <= j < i ==> (#[trigger] out@[j]).0@ == old(self)@.sets[j].name
                    && out@[j].1 == mem_value(old(self)@.sets[j].membership->0, x),
            decreases n - i,
        {
            let name = self.sets[i].name.clone();
            let r = self.check_set_at(i, x);
            let d = match r {
                Ok(d) => d,
                Err(e) => {
                    proof {
                        assert(old(self)@.sets[i as int].membership is Some);
                        assert(false);
                    }
                    return Err(e);
                },
            };
            out.push((name, d));
            i += 1;
        }
        Ok(out)
    }
}

} // verus!
