//! Pluggable operator tables.
//!
//! A logic table combines scalar degrees for conjunction, disjunction and
//! negation; a set table folds two fuzzy sets into one; a defuzzification
//! strategy reduces an aggregated set to one crisp value. Each is a trait
//! whose executable methods are pinned to a spec-level counterpart, so that
//! rule evaluation can be reasoned about for any table.

use vstd::prelude::*;
use vstd::arithmetic::div_mod::{lemma_div_is_ordered, lemma_div_by_multiple, lemma_div_pos_is_pos};
use crate::{UNIT, KEY_LIMIT};
use crate::set::{
    Entry, FuzzySet, cache_has, cache_val, cache_wf, unique_keys, entries_map,
    lemma_entries_map_char,
};

verus! {

/// Scalar fuzzy logic: and, or, not on degrees in `[0, UNIT]`.
pub trait LogicOps: Sized {
    /// What `and` returns.
    spec fn spec_and(&self, a: u64, b: u64) -> u64;

    /// What `or` returns.
    spec fn spec_or(&self, a: u64, b: u64) -> u64;

    /// What `not` returns.
    spec fn spec_not(&self, a: u64) -> u64;

    /// Fuzzy conjunction.
    fn and(&self, a: u64, b: u64) -> (r: u64)
        requires
            a <= UNIT,
            b <= UNIT,
        ensures
            r == self.spec_and(a, b),
            r <= UNIT,
    ;

    /// Fuzzy disjunction.
    fn or(&self, a: u64, b: u64) -> (r: u64)
        requires
            a <= UNIT,
            b <= UNIT,
        ensures
            r == self.spec_or(a, b),
            r <= UNIT,
    ;

    /// Fuzzy negation.
    fn not(&self, a: u64) -> (r: u64)
        requires
            a <= UNIT,
        ensures
            r == self.spec_not(a),
            r <= UNIT,
    ;
}

/// Folding two fuzzy sets into one.
pub trait SetOps: Sized {
    /// The cache the fold produces.
    spec fn spec_union(&self, a: Seq<Entry>, b: Seq<Entry>) -> Seq<Entry>;

    /// The fold keeps caches well formed.
    proof fn union_preserves_wf(&self, a: Seq<Entry>, b: Seq<Entry>)
        requires
            cache_wf(a),
            cache_wf(b),
        ensures
            cache_wf(self.spec_union(a, b)),
    ;

    /// Folds two snapshot sets; the result keeps the left set's name.
    fn union(&self, left: &FuzzySet, right: &FuzzySet) -> (r: FuzzySet)
        requires
            left.wf(),
            right.wf(),
        ensures
            r.wf(),
            r@.name == left@.name,
            r@.membership is None,
            r@.cache == self.spec_union(left@.cache, right@.cache),
    ;
}

/// Reducing an aggregated fuzzy set to one crisp value.
pub trait DefuzzFunc: Sized {
    /// What `defuzz` returns.
    spec fn spec_defuzz(&self, c: Seq<Entry>) -> i64;

    /// The crisp value of an aggregated set.
    fn defuzz(&self, s: &FuzzySet) -> (r: i64)
        requires
            s.wf(),
        ensures
            r == self.spec_defuzz(s@.cache),
    ;
}

/// The classic min/max/complement logic table.
pub struct MinMaxOps;

impl LogicOps for MinMaxOps {
    open spec fn spec_and(&self, a: u64, b: u64) -> u64 {
        if a <= b {
            a
        } else {
            b
        }
    }

    open spec fn spec_or(&self, a: u64, b: u64) -> u64 {
        if a >= b {
            a
        } else {
            b
        }
    }

    open spec fn spec_not(&self, a: u64) -> u64 {
        (UNIT - a) as u64
    }

    fn and(&self, a: u64, b: u64) -> (r: u64) {
        if a <= b {
            a
        } else {
            b
        }
    }

    fn or(&self, a: u64, b: u64) -> (r: u64) {
        if a >= b {
            a
        } else {
            b
        }
    }

    fn not(&self, a: u64) -> (r: u64) {
        UNIT - a
    }
}

/// The greater of a stored degree and whatever `b` stores for the same key.
pub open spec fn max_with(v: u64, b: Seq<Entry>, k: i64) -> u64 {
    if cache_has(b, k) && cache_val(b, k) > v {
        cache_val(b, k)
    } else {
        v
    }
}

/// `a`'s entries, each raised to `b`'s degree where `b` stores more.
pub open spec fn union_left(a: Seq<Entry>, b: Seq<Entry>) -> Seq<Entry> {
    Seq::new(a.len(), |i: int| (a[i].0, max_with(a[i].1, b, a[i].0)))
}

/// `b`'s entries whose keys `a` does not hold, in `b`'s order.
pub open spec fn minus_keys(b: Seq<Entry>, a: Seq<Entry>) -> Seq<Entry>
    decreases b.len(),
{
    if b.len() == 0 {
        Seq::empty()
    } else {
        let rest = minus_keys(b.drop_last(), a);
        if cache_has(a, b.last().0) {
            rest
        } else {
            rest.push(b.last())
        }
    }
}

/// The pointwise-maximum union of two caches.
pub open spec fn max_union(a: Seq<Entry>, b: Seq<Entry>) -> Seq<Entry> {
    union_left(a, b) + minus_keys(b, a)
}

/// Every entry kept by `minus_keys` is one of `b`'s, its key is not in `a`,
/// keys stay unique, and every `b` key missing from `a` is kept.
proof fn lemma_minus_keys_props(b: Seq<Entry>, a: Seq<Entry>)
    requires
        unique_keys(b),
    ensures
        unique_keys(minus_keys(b, a)),
        forall|i: int| 0 <= i < minus_keys(b, a).len() ==> exists|j: int|
            0 <= j < b.len() && #[trigger] minus_keys(b, a)[i] == b[j],
        forall|i: int| 0 <= i < minus_keys(b, a).len() ==> !cache_has(
            a,
            #[trigger] minus_keys(b, a)[i].0,
        ),
        forall|j: int| 0 <= j < b.len() && !cache_has(a, #[trigger] b[j].0) ==> cache_has(
            minus_keys(b, a),
            b[j].0,
        ),
    decreases b.len(),
{
    if b.len() > 0 {
        let pre = b.drop_last();
        assert(unique_keys(pre)) by {
            assert forall|i: int, j: int| 0 <= i < j < pre.len() implies pre[i].0 != pre[j].0 by {
                assert(pre[i] == b[i]);
                assert(pre[j] == b[j]);
            }
        }
        lemma_minus_keys_props(pre, a);
        let rest = minus_keys(pre, a);
        let e = b.last();
        assert forall|i: int| 0 <= i < rest.len() implies rest[i].0 != e.0 by {
            let j = choose|j: int| 0 <= j < pre.len() && rest[i] == pre[j];
            assert(b[j] == pre[j]);
            assert(b[j].0 != b[b.len() - 1].0);
        }
        if !cache_has(a, e.0) {
            let out = rest.push(e);
            assert(out[out.len() - 1] == e);
            assert(out == minus_keys(b, a));
            assert forall|j: int|
                0 <= j < b.len() && !cache_has(a, #[trigger] b[j].0) implies cache_has(
                minus_keys(b, a),
                b[j].0,
            ) by {
                if j < b.len() - 1 {
                    assert(pre[j] == b[j]);
                    assert(cache_has(rest, b[j].0));
                    let i = choose|i: int| 0 <= i < rest.len() && rest[i].0 == b[j].0;
                    assert(out[i].0 == b[j].0);
                } else {
                    assert(out[out.len() - 1].0 == b[j].0);
                }
            }
            assert forall|i: int| 0 <= i < out.len() implies exists|j: int|
                0 <= j < b.len() && #[trigger] out[i] == b[j] by {
                if i < out.len() - 1 {
                    let j = choose|j: int| 0 <= j < pre.len() && rest[i] == pre[j];
                    assert(out[i] == b[j]);
                } else {
                    assert(out[i] == b[b.len() - 1]);
                }
            }
        } else {
            assert(rest == minus_keys(b, a));
            assert forall|j: int|
                0 <= j < b.len() && !cache_has(a, #[trigger] b[j].0) implies cache_has(
                minus_keys(b, a),
                b[j].0,
            ) by {
                assert(b[j].0 != e.0);
                assert(j < b.len() - 1);
                assert(pre[j] == b[j]);
            }
            assert forall|i: int| 0 <= i < rest.len() implies exists|j: int|
                0 <= j < b.len() && #[trigger] rest[i] == b[j] by {
                let j = choose|j: int| 0 <= j < pre.len() && rest[i] == pre[j];
                assert(rest[i] == b[j]);
            }
        }
    }
}

/// The pointwise-maximum union of well-formed caches is well formed.
pub proof fn lemma_max_union_wf(a: Seq<Entry>, b: Seq<Entry>)
    requires
        cache_wf(a),
        cache_wf(b),
    ensures
        cache_wf(max_union(a, b)),
{
    lemma_minus_keys_props(b, a);
    let u = max_union(a, b);
    let la = a.len() as int;
    assert forall|i: int, j: int| 0 <= i < j < u.len() implies u[i].0 != u[j].0 by {
        if j < la {
            assert(u[i].0 == a[i].0 && u[j].0 == a[j].0);
        } else if i >= la {
            assert(u[i] == minus_keys(b, a)[i - la]);
            assert(u[j] == minus_keys(b, a)[j - la]);
        } else {
            assert(u[i].0 == a[i].0);
            assert(u[j] == minus_keys(b, a)[j - la]);
            assert(!cache_has(a, u[j].0));
            assert(cache_has(a, a[i].0));
        }
    }
    assert forall|i: int| 0 <= i < u.len() implies crate::valid_key(#[trigger] u[i].0) && 0
        < u[i].1 <= UNIT by {
        if i < la {
            assert(u[i].0 == a[i].0);
            if cache_has(b, a[i].0) && cache_val(b, a[i].0) > a[i].1 {
                let j = choose|j: int| 0 <= j < b.len() && b[j].0 == a[i].0;
                assert(cache_val(b, a[i].0) == b[j].1);
            }
        } else {
            let e = u[i];
            assert(e == minus_keys(b, a)[i - la]);
            let j = choose|j: int| 0 <= j < b.len() && minus_keys(b, a)[i - la] == b[j];
        }
    }
}

/// The pointwise-maximum set table.
pub struct MaxUnionOps;

impl SetOps for MaxUnionOps {
    open spec fn spec_union(&self, a: Seq<Entry>, b: Seq<Entry>) -> Seq<Entry> {
        max_union(a, b)
    }

    proof fn union_preserves_wf(&self, a: Seq<Entry>, b: Seq<Entry>) {
        lemma_max_union_wf(a, b);
    }

    fn union(&self, left: &FuzzySet, right: &FuzzySet) -> (r: FuzzySet) {
        let ghost a = left@.cache;
        let ghost b = right@.cache;
        let mut entries: Vec<Entry> = Vec::new();
        let na = left.entry_count();
        let mut i: usize = 0;
        while i < na
            invariant
                left.wf(),
                right.wf(),
                na == a.len(),
                a == left@.cache,
                b == right@.cache,
                i <= na,
                entries@.len() == i,
                forall|j: int| 0 <= j < i ==> #[trigger] entries@[j] == (
                    a[j].0,
                    max_with(a[j].1, b, a[j].0),
                ),
            decreases na - i,
        {
            let e = left.entry_at(i);
            let v = match right.lookup(e.0) {
                Some(w) => if w > e.1 {
                    w
                } else {
                    e.1
                },
                None => e.1,
            };
            entries.push((e.0, v));
            i += 1;
        }
        assert(entries@ =~= union_left(a, b));
        let nb = right.entry_count();
        let mut k: usize = 0;
        while k < nb
            invariant
                left.wf(),
                right.wf(),
                nb == b.len(),
                a == left@.cache,
                b == right@.cache,
                k <= nb,
                entries@ == union_left(a, b) + minus_keys(b.take(k as int), a),
            decreases nb - k,
        {
            let e = right.entry_at(k);
            proof {
                assert(b.take(k as int + 1).drop_last() =~= b.take(k as int));
                assert(b.take(k as int + 1).last() == b[k as int]);
            }
            match left.lookup(e.0) {
                Some(_) => {
                    proof {
                        assert(entries@ =~= union_left(a, b) + minus_keys(
                            b.take(k as int + 1),
                            a,
                        ));
                    }
                },
                None => {
                    entries.push(e);
                    proof {
                        assert(entries@ =~= union_left(a, b) + minus_keys(
                            b.take(k as int + 1),
                            a,
                        ));
                    }
                },
            }
            k += 1;
        }
        proof {
            assert(b.take(nb as int) =~= b);
            assert(entries@ == max_union(a, b));
            lemma_max_union_wf(a, b);
        }
        FuzzySet::new_with_domain(left.name().clone(), entries)
    }
}

/// The degrees of a cache added up.
pub open spec fn sum_deg(c: Seq<Entry>) -> int
    decreases c.len(),
{
    if c.len() == 0 {
        0
    } else {
        sum_deg(c.drop_last()) + c.last().1
    }
}

/// The key-weighted degrees of a cache added up.
pub open spec fn sum_weighted(c: Seq<Entry>) -> int
    decreases c.len(),
{
    if c.len() == 0 {
        0
    } else {
        sum_weighted(c.drop_last()) + c.last().0 * c.last().1
    }
}

/// The center of mass of a cache: the weighted sum over the plain sum,
/// rounded toward zero; zero when the cache carries no weight.
pub open spec fn com_value(c: Seq<Entry>) -> int {
    let s = sum_deg(c);
    let w = sum_weighted(c);
    if s == 0 {
        0
    } else if w >= 0 {
        w / s
    } else {
        -((-w) / s)
    }
}

/// Sums over a well-formed cache stay within the bounds that the key and
/// degree limits force.
proof fn lemma_sum_bounds(c: Seq<Entry>)
    requires
        cache_wf(c),
    ensures
        0 <= sum_deg(c) <= c.len() * (UNIT as int),
        -sum_deg(c) * (KEY_LIMIT as int) <= sum_weighted(c) <= sum_deg(c) * (KEY_LIMIT as int),
    decreases c.len(),
{
    if c.len() > 0 {
        let pre = c.drop_last();
        assert(cache_wf(pre)) by {
            assert forall|i: int, j: int| 0 <= i < j < pre.len() implies pre[i].0 != pre[j].0 by {
                assert(pre[i] == c[i] && pre[j] == c[j]);
            }
            assert forall|i: int| 0 <= i < pre.len() implies crate::valid_key(
                #[trigger] pre[i].0,
            ) && 0 < pre[i].1 <= UNIT by {
                assert(pre[i] == c[i]);
            }
        }
        lemma_sum_bounds(pre);
        let k = c.last().0 as int;
        let v = c.last().1 as int;
        assert(-v * (KEY_LIMIT as int) <= k * v <= v * (KEY_LIMIT as int)) by (nonlinear_arith)
            requires
                -(KEY_LIMIT as int) <= k <= KEY_LIMIT as int,
                0 <= v,
        ;
        assert((c.len() - 1) * (UNIT as int) + v <= c.len() * (UNIT as int)) by (nonlinear_arith)
            requires
                v <= UNIT as int,
        ;
        assert((sum_deg(pre) + v) * (KEY_LIMIT as int) == sum_deg(pre) * (KEY_LIMIT as int) + v * (
        KEY_LIMIT as int)) by (nonlinear_arith);
    }
}

/// The center of mass lies within the key bounds.
pub proof fn lemma_com_bounds(c: Seq<Entry>)
    requires
        cache_wf(c),
    ensures
        -KEY_LIMIT <= com_value(c) <= KEY_LIMIT,
{
    lemma_sum_bounds(c);
    let s = sum_deg(c);
    let w = sum_weighted(c);
    if s != 0 {
        lemma_div_by_multiple(KEY_LIMIT as int, s);
        if w >= 0 {
            lemma_div_pos_is_pos(w, s);
            lemma_div_is_ordered(w, s * (KEY_LIMIT as int), s);
            assert(s * (KEY_LIMIT as int) == (KEY_LIMIT as int) * s) by (nonlinear_arith);
        } else {
            lemma_div_pos_is_pos(-w, s);
            lemma_div_is_ordered(-w, s * (KEY_LIMIT as int), s);
            assert(s * (KEY_LIMIT as int) == (KEY_LIMIT as int) * s) by (nonlinear_arith);
        }
    }
}

/// The center-of-mass defuzzification strategy.
pub struct CenterOfMass;

impl DefuzzFunc for CenterOfMass {
    open spec fn spec_defuzz(&self, c: Seq<Entry>) -> i64 {
        com_value(c) as i64
    }

    fn defuzz(&self, s: &FuzzySet) -> (r: i64) {
        let ghost c = s@.cache;
        let n = s.entry_count();
        let mut sum_v: u128 = 0;
        let mut sum_kv: i128 = 0;
        let mut i: usize = 0;
        while i < n
            invariant
                s.wf(),
                c == s@.cache,
                n == c.len(),
                i <= n,
                sum_v == sum_deg(c.take(i as int)),
                sum_kv == sum_weighted(c.take(i as int)),
                sum_v <= i * (UNIT as int),
                -(sum_v as int) * (KEY_LIMIT as int) <= sum_kv <= (sum_v as int) * (
                KEY_LIMIT as int),
            decreases n - i,
        {
            let e = s.entry_at(i);
            proof {
                assert(c.take(i as int + 1).drop_last() =~= c.take(i as int));
                assert(c.take(i as int + 1).last() == c[i as int]);
                let k = e.0 as int;
                let v = e.1 as int;
                assert(-v * (KEY_LIMIT as int) <= k * v <= v * (KEY_LIMIT as int))
                    by (nonlinear_arith)
                    requires
                        -(KEY_LIMIT as int) <= k <= KEY_LIMIT as int,
                        0 <= v,
                ;
                assert((sum_v as int + v) * (KEY_LIMIT as int) == (sum_v as int) * (
                KEY_LIMIT as int) + v * (KEY_LIMIT as int)) by (nonlinear_arith);
                assert(i * (UNIT as int) + v <= (i + 1) * (UNIT as int)) by (nonlinear_arith)
                    requires
                        v <= UNIT as int,
                ;
                assert((i + 1) * (UNIT as int) <= 0x1_0000_0000_0000_0000u128 * (UNIT as int))
                    by (nonlinear_arith)
                    requires
                        i + 1 <= 0x1_0000_0000_0000_0000u128,
                ;
                assert((sum_v as int + v) * (KEY_LIMIT as int) <= 0x1_0000_0000_0000_0000u128 * (
                UNIT as int) * (KEY_LIMIT as int)) by (nonlinear_arith)
                    requires
                        0 <= sum_v as int + v <= 0x1_0000_0000_0000_0000u128 * (UNIT as int),
                ;
            }
            sum_v = sum_v + (e.1 as u128);
            sum_kv = sum_kv + (e.0 as i128) * (e.1 as i128);
            i += 1;
        }
        proof {
            assert(c.take(n as int) =~= c);
            lemma_com_bounds(c);
        }
        if sum_v == 0 {
            return 0;
        }
        if sum_kv >= 0 {
            let q: u128 = (sum_kv as u128) / sum_v;
            proof {
                lemma_sum_bounds(c);
                lemma_div_by_multiple(KEY_LIMIT as int, sum_v as int);
                lemma_div_is_ordered(sum_kv as int, (sum_v as int) * (KEY_LIMIT as int),
                    sum_v as int);
                assert((sum_v as int) * (KEY_LIMIT as int) == (KEY_LIMIT as int) * (sum_v as int))
                    by (nonlinear_arith);
            }
            q as i64
        } else {
            let q: u128 = ((-sum_kv) as u128) / sum_v;
            proof {
                lemma_sum_bounds(c);
                lemma_div_by_multiple(KEY_LIMIT as int, sum_v as int);
                lemma_div_is_ordered(-(sum_kv as int), (sum_v as int) * (KEY_LIMIT as int),
                    sum_v as int);
                assert((sum_v as int) * (KEY_LIMIT as int) == (KEY_LIMIT as int) * (sum_v as int))
                    by (nonlinear_arith);
            }
            -(q as i64)
        }
    }
}

/// The pointwise maximum of two cache mappings.
pub open spec fn umax(m1: Map<i64, u64>, m2: Map<i64, u64>) -> Map<i64, u64> {
    Map::new(
        |k: i64| m1.contains_key(k) || m2.contains_key(k),
        |k: i64|
            if m1.contains_key(k) && m2.contains_key(k) {
                if m2[k] > m1[k] {
                    m2[k]
                } else {
                    m1[k]
                }
            } else if m1.contains_key(k) {
                m1[k]
            } else {
                m2[k]
            },
    )
}

/// Rule outputs folded into an accumulator, first to last, through the
/// pointwise-maximum union. This is the fold `compute_all` performs with
/// `MaxUnionOps` once every rule's output is in hand.
pub open spec fn union_fold(rs: Seq<Seq<Entry>>, acc: Seq<Entry>) -> Seq<Entry>
    decreases rs.len(),
{
    if rs.len() == 0 {
        acc
    } else {
        union_fold(rs.drop_first(), max_union(acc, rs.first()))
    }
}

/// The pointwise maximum of mappings is commutative.
proof fn lemma_umax_comm(a: Map<i64, u64>, b: Map<i64, u64>)
    ensures
        umax(a, b) == umax(b, a),
{
    assert(umax(a, b) =~= umax(b, a));
}

/// The pointwise maximum of mappings is associative.
proof fn lemma_umax_assoc(a: Map<i64, u64>, b: Map<i64, u64>, c: Map<i64, u64>)
    ensures
        umax(umax(a, b), c) == umax(a, umax(b, c)),
{
    assert(umax(umax(a, b), c) =~= umax(a, umax(b, c)));
}

/// At the mapping level, the cache union is exactly the pointwise maximum.
pub proof fn lemma_max_union_map(a: Seq<Entry>, b: Seq<Entry>)
    requires
        cache_wf(a),
        cache_wf(b),
    ensures
        entries_map(max_union(a, b)) == umax(entries_map(a), entries_map(b)),
{
    lemma_max_union_wf(a, b);
    lemma_minus_keys_props(b, a);
    lemma_entries_map_char(a);
    lemma_entries_map_char(b);
    let u = max_union(a, b);
    lemma_entries_map_char(u);
    let la = a.len() as int;
    let m = minus_keys(b, a);
    assert forall|k: i64|
        entries_map(u).contains_key(k) <==> umax(
            entries_map(a),
            entries_map(b),
        ).contains_key(k) by {
        if cache_has(u, k) {
            let i = choose|i: int| 0 <= i < u.len() && u[i].0 == k;
            if i < la {
                assert(a[i].0 == k);
            } else {
                let j = choose|j: int| 0 <= j < b.len() && m[i - la] == b[j];
                assert(b[j].0 == k);
            }
        }
        if cache_has(a, k) {
            let i = choose|i: int| 0 <= i < a.len() && a[i].0 == k;
            assert(u[i].0 == k);
        }
        if cache_has(b, k) && !cache_has(a, k) {
            let j = choose|j: int| 0 <= j < b.len() && b[j].0 == k;
            assert(cache_has(m, b[j].0));
            let i = choose|i: int| 0 <= i < m.len() && m[i].0 == k;
            assert(u[la + i].0 == k);
        }
    }
    assert forall|k: i64| #[trigger]
        entries_map(u).contains_key(k) implies entries_map(u)[k] == umax(
        entries_map(a),
        entries_map(b),
    )[k] by {
        if cache_has(a, k) {
            let i = choose|i: int| 0 <= i < a.len() && a[i].0 == k;
            assert(u[i] == (a[i].0, max_with(a[i].1, b, a[i].0)));
            assert(entries_map(u)[u[i].0] == u[i].1);
            assert(entries_map(a)[a[i].0] == a[i].1);
            if cache_has(b, k) {
                let j = choose|j: int| 0 <= j < b.len() && b[j].0 == k;
                assert(entries_map(b)[b[j].0] == b[j].1);
                assert(cache_val(b, k) == entries_map(b)[k]) by {
                    let jc = choose|jc: int| 0 <= jc < b.len() && b[jc].0 == k;
                    assert(entries_map(b)[b[jc].0] == b[jc].1);
                }
            }
        } else {
            assert(cache_has(u, k));
            let i = choose|i: int| 0 <= i < u.len() && u[i].0 == k;
            assert(i >= la) by {
                if i < la {
                    assert(a[i].0 == k);
                }
            }
            assert(u[i] == m[i - la]);
            let j = choose|j: int| 0 <= j < b.len() && m[i - la] == b[j];
            assert(b[j].0 == k);
            assert(entries_map(u)[u[i].0] == u[i].1);
            assert(entries_map(b)[b[j].0] == b[j].1);
        }
    }
    assert(entries_map(u) =~= umax(entries_map(a), entries_map(b)));
}

/// The union fold keeps caches well formed.
proof fn lemma_union_fold_wf(rs: Seq<Seq<Entry>>, acc: Seq<Entry>)
    requires
        forall|i: int| 0 <= i < rs.len() ==> cache_wf(#[trigger] rs[i]),
        cache_wf(acc),
    ensures
        cache_wf(union_fold(rs, acc)),
    decreases rs.len(),
{
    if rs.len() > 0 {
        assert(rs[0] == rs.first());
        lemma_max_union_wf(acc, rs.first());
        assert forall|i: int| 0 <= i < rs.drop_first().len() implies cache_wf(
            #[trigger] rs.drop_first()[i],
        ) by {
            assert(rs.drop_first()[i] == rs[i + 1]);
        }
        lemma_union_fold_wf(rs.drop_first(), max_union(acc, rs.first()));
    }
}

/// Accumulators with the same mapping fold to the same mapping.
proof fn lemma_union_fold_congruent(rs: Seq<Seq<Entry>>, acc1: Seq<Entry>, acc2: Seq<Entry>)
    requires
        forall|i: int| 0 <= i < rs.len() ==> cache_wf(#[trigger] rs[i]),
        cache_wf(acc1),
        cache_wf(acc2),
        entries_map(acc1) == entries_map(acc2),
    ensures
        entries_map(union_fold(rs, acc1)) == entries_map(union_fold(rs, acc2)),
    decreases rs.len(),
{
    if rs.len() > 0 {
        let x = rs.first();
        assert(rs[0] == x);
        lemma_max_union_wf(acc1, x);
        lemma_max_union_wf(acc2, x);
        lemma_max_union_map(acc1, x);
        lemma_max_union_map(acc2, x);
        assert forall|i: int| 0 <= i < rs.drop_first().len() implies cache_wf(
            #[trigger] rs.drop_first()[i],
        ) by {
            assert(rs.drop_first()[i] == rs[i + 1]);
        }
        lemma_union_fold_congruent(rs.drop_first(), max_union(acc1, x), max_union(acc2, x));
    }
}

/// Any element of the fold may be drawn into the accumulator first
/// without changing the mapping the fold reaches.
proof fn lemma_union_fold_pull(rs: Seq<Seq<Entry>>, acc: Seq<Entry>, j: int)
    requires
        forall|i: int| 0 <= i < rs.len() ==> cache_wf(#[trigger] rs[i]),
        cache_wf(acc),
        0 <= j < rs.len(),
    ensures
        entries_map(union_fold(rs, acc)) == entries_map(
            union_fold(rs.remove(j), max_union(acc, rs[j])),
        ),
    decreases rs.len(),
{
    let x0 = rs.first();
    assert(rs[0] == x0);
    assert forall|i: int| 0 <= i < rs.drop_first().len() implies cache_wf(
        #[trigger] rs.drop_first()[i],
    ) by {
        assert(rs.drop_first()[i] == rs[i + 1]);
    }
    if j == 0 {
        assert(rs.remove(0) =~= rs.drop_first());
    } else {
        let xj = rs[j];
        lemma_max_union_wf(acc, x0);
        assert(rs.drop_first()[j - 1] == xj);
        lemma_union_fold_pull(rs.drop_first(), max_union(acc, x0), j - 1);
        assert(rs.drop_first().remove(j - 1) =~= rs.remove(j).drop_first());
        lemma_max_union_wf(acc, xj);
        lemma_max_union_wf(max_union(acc, x0), xj);
        lemma_max_union_wf(max_union(acc, xj), x0);
        lemma_max_union_map(acc, x0);
        lemma_max_union_map(acc, xj);
        lemma_max_union_map(max_union(acc, x0), xj);
        lemma_max_union_map(max_union(acc, xj), x0);
        lemma_umax_comm(entries_map(acc), entries_map(x0));
        lemma_umax_comm(entries_map(acc), entries_map(xj));
        lemma_umax_comm(umax(entries_map(acc), entries_map(x0)), entries_map(xj));
        lemma_umax_assoc(entries_map(acc), entries_map(x0), entries_map(xj));
        lemma_umax_assoc(entries_map(acc), entries_map(xj), entries_map(x0));
        lemma_umax_comm(entries_map(x0), entries_map(xj));
        assert forall|i: int| 0 <= i < rs.remove(j).drop_first().len() implies cache_wf(
            #[trigger] rs.remove(j).drop_first()[i],
        ) by {
            assert(rs.remove(j).drop_first() =~= rs.drop_first().remove(j - 1));
            if i < j - 1 {
                assert(rs.drop_first().remove(j - 1)[i] == rs[i + 1]);
            } else {
                assert(rs.drop_first().remove(j - 1)[i] == rs[i + 2]);
            }
        }
        lemma_union_fold_congruent(
            rs.remove(j).drop_first(),
            max_union(max_union(acc, x0), xj),
            max_union(max_union(acc, xj), x0),
        );
        assert(rs.remove(j).first() == x0);
    }
}

/// Folding the same rule outputs in any arrival order through the
/// pointwise-maximum union reaches the same aggregate mapping: with a
/// commutative, associative union, the sequential fold and a worker
/// pool's completion-order fold agree on every key and degree.
pub proof fn lemma_union_fold_order_independent(
    rs1: Seq<Seq<Entry>>,
    rs2: Seq<Seq<Entry>>,
    acc: Seq<Entry>,
)
    requires
        rs1.to_multiset() == rs2.to_multiset(),
        forall|i: int| 0 <= i < rs1.len() ==> cache_wf(#[trigger] rs1[i]),
        forall|i: int| 0 <= i < rs2.len() ==> cache_wf(#[trigger] rs2[i]),
        cache_wf(acc),
    ensures
        entries_map(union_fold(rs1, acc)) == entries_map(union_fold(rs2, acc)),
    decreases rs1.len(),
{
    broadcast use vstd::seq_lib::group_to_multiset_ensures;

    if rs1.len() == 0 {
        assert(rs1.to_multiset().len() == 0);
        assert(rs2.len() == 0);
    } else {
        let x = rs1.first();
        assert(rs1[0] == x);
        assert(rs1.contains(x));
        assert(rs1.to_multiset().count(x) > 0);
        assert(rs2.to_multiset().count(x) > 0);
        assert(rs2.contains(x));
        let j = choose|j: int| 0 <= j < rs2.len() && rs2[j] == x;
        lemma_union_fold_pull(rs2, acc, j);
        assert(rs1.remove(0) =~= rs1.drop_first());
        assert(rs1.remove(0).to_multiset() =~= rs1.to_multiset().remove(x));
        assert(rs2.remove(j).to_multiset() =~= rs2.to_multiset().remove(x));
        assert forall|i: int| 0 <= i < rs1.drop_first().len() implies cache_wf(
            #[trigger] rs1.drop_first()[i],
        ) by {
            assert(rs1.drop_first()[i] == rs1[i + 1]);
        }
        assert forall|i: int| 0 <= i < rs2.remove(j).len() implies cache_wf(
            #[trigger] rs2.remove(j)[i],
        ) by {
            if i < j {
                assert(rs2.remove(j)[i] == rs2[i]);
            } else {
                assert(rs2.remove(j)[i] == rs2[i + 1]);
            }
        }
        lemma_max_union_wf(acc, x);
        lemma_union_fold_order_independent(
            rs1.drop_first(),
            rs2.remove(j),
            max_union(acc, x),
        );
    }
}


} // verus!
