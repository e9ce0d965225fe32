//! Condition expressions, rules and rule sets.
//!
//! An expression grades to a degree in `[0, UNIT]` against the current
//! input snapshot and universe registry; grading memoizes membership
//! degrees inside the registry as a visible side effect. A rule clips its
//! target set's cache against the expression's firing strength; a rule set
//! folds every rule's output into one aggregate through the set table.

use vstd::prelude::*;
use vstd::string::StringExecFns;
use crate::UNIT;
use crate::errors::{FuzzyError, ConfigIssue};
use crate::set::{
    Entry, FuzzySet, SetView, UniverseView, UniversalSet, cache_has, cache_wf, unique_keys,
    set_wf, uni_wf, has_set, set_at, spec_check, spec_check_post,
};
use crate::ops::{LogicOps, SetOps};

verus! {

/// The input snapshot as name/value pairs.
pub open spec fn valsv(vals: Seq<(String, i64)>) -> Seq<(Seq<char>, i64)> {
    Seq::new(vals.len(), |i: int| (vals[i].0@, vals[i].1))
}

/// The registry as a sequence of universe views.
pub open spec fn regv(unis: Seq<UniversalSet>) -> Seq<UniverseView> {
    Seq::new(unis.len(), |i: int| unis[i]@)
}

/// Input variables carry distinct names.
pub open spec fn vals_wf(vals: Seq<(Seq<char>, i64)>) -> bool {
    forall|i: int, j: int| 0 <= i < j < vals.len() ==> vals[i].0 != vals[j].0
}

/// Whether the snapshot binds a variable.
pub open spec fn has_val(vals: Seq<(Seq<char>, i64)>, name: Seq<char>) -> bool {
    exists|i: int| 0 <= i < vals.len() && vals[i].0 == name
}

/// The value bound to a variable (meaningful when `has_val`).
pub open spec fn val_of(vals: Seq<(Seq<char>, i64)>, name: Seq<char>) -> i64 {
    vals[choose|i: int| 0 <= i < vals.len() && vals[i].0 == name].1
}

/// Whether the registry holds a universe of the given name.
pub open spec fn has_universe(reg: Seq<UniverseView>, name: Seq<char>) -> bool {
    exists|i: int| 0 <= i < reg.len() && reg[i].name == name
}

/// The position of the universe of the given name.
pub open spec fn uni_index(reg: Seq<UniverseView>, name: Seq<char>) -> int {
    choose|i: int| 0 <= i < reg.len() && reg[i].name == name
}

/// The universe of the given name (meaningful when `has_universe`).
pub open spec fn universe_at(reg: Seq<UniverseView>, name: Seq<char>) -> UniverseView {
    reg[uni_index(reg, name)]
}

/// The position of the set of the given name in a universe.
pub open spec fn set_index(ss: Seq<SetView>, name: Seq<char>) -> int {
    choose|i: int| 0 <= i < ss.len() && ss[i].name == name
}

/// The registry's invariant: distinct universe names, each universe well
/// formed.
pub open spec fn registry_wf(reg: Seq<UniverseView>) -> bool {
    &&& forall|i: int, j: int| 0 <= i < j < reg.len() ==> reg[i].name != reg[j].name
    &&& forall|i: int| 0 <= i < reg.len() ==> uni_wf(#[trigger] reg[i])
}

/// A membership test: does the variable's current value belong to the
/// named set of the equally named universe?
pub struct Is {
    /// The variable looked up in the snapshot, and the universe's name.
    pub variable: String,
    /// The set looked up within that universe.
    pub set: String,
}

impl Is {
    /// A membership test of `variable` against `set`.
    pub fn new(variable: String, set: String) -> (n: Is)
        ensures
            n.variable@ == variable@,
            n.set@ == set@,
    {
        Is { variable, set }
    }
}

/// A condition expression tree.
pub enum Expr {
    /// A membership test.
    Is(Is),
    /// Fuzzy conjunction of two children, both always evaluated.
    And(Box<Expr>, Box<Expr>),
    /// Fuzzy disjunction of two children, both always evaluated.
    Or(Box<Expr>, Box<Expr>),
    /// Fuzzy negation of a child.
    Not(Box<Expr>),
}

/// The degree a membership test grades to, or the failure it signals.
pub open spec fn is_value(node: Is, vals: Seq<(Seq<char>, i64)>, reg: Seq<UniverseView>) -> Result<
    u64,
    FuzzyError,
> {
    if !has_val(vals, node.variable@) {
        Err(FuzzyError::UnknownVariable(node.variable))
    } else if !has_universe(reg, node.variable@) {
        Err(FuzzyError::UnknownUniverse(node.variable))
    } else {
        let u = universe_at(reg, node.variable@);
        if !has_set(u.sets, node.set@) {
            Err(FuzzyError::UnknownSet(node.set))
        } else {
            spec_check(set_at(u.sets, node.set@), val_of(vals, node.variable@))
        }
    }
}

/// The registry after a membership test: the touched set has memoized the
/// sample, everything else is untouched.
pub open spec fn is_post(node: Is, vals: Seq<(Seq<char>, i64)>, reg: Seq<UniverseView>) -> Seq<
    UniverseView,
> {
    if has_val(vals, node.variable@) && has_universe(reg, node.variable@) && has_set(
        universe_at(reg, node.variable@).sets,
        node.set@,
    ) {
        let ui = uni_index(reg, node.variable@);
        let u = reg[ui];
        let si = set_index(u.sets, node.set@);
        reg.update(
            ui,
            UniverseView {
                sets: u.sets.update(
                    si,
                    spec_check_post(u.sets[si], val_of(vals, node.variable@)),
                ),
                ..u
            },
        )
    } else {
        reg
    }
}

/// The degree an expression grades to, or the first failure met. The
/// children of a connective are both graded, left before right, with the
/// left failure taking precedence.
pub open spec fn expr_value<L: LogicOps>(
    e: Expr,
    vals: Seq<(Seq<char>, i64)>,
    reg: Seq<UniverseView>,
    logic: L,
) -> Result<u64, FuzzyError>
    decreases e,
{
    match e {
        Expr::Is(node) => is_value(node, vals, reg),
        Expr::And(l, r) => {
            let a = expr_value(*l, vals, reg, logic);
            let b = expr_value(*r, vals, expr_post(*l, vals, reg), logic);
            match (a, b) {
                (Ok(x), Ok(y)) => Ok(logic.spec_and(x, y)),
                (Err(err), _) => Err(err),
                (_, Err(err)) => Err(err),
            }
        },
        Expr::Or(l, r) => {
            let a = expr_value(*l, vals, reg, logic);
            let b = expr_value(*r, vals, expr_post(*l, vals, reg), logic);
            match (a, b) {
                (Ok(x), Ok(y)) => Ok(logic.spec_or(x, y)),
                (Err(err), _) => Err(err),
                (_, Err(err)) => Err(err),
            }
        },
        Expr::Not(c) => {
            match expr_value(*c, vals, reg, logic) {
                Ok(x) => Ok(logic.spec_not(x)),
                Err(err) => Err(err),
            }
        },
    }
}

/// The registry after grading an expression: both children of a
/// connective leave their memoizations, left first.
pub open spec fn expr_post(e: Expr, vals: Seq<(Seq<char>, i64)>, reg: Seq<UniverseView>) -> Seq<
    UniverseView,
>
    decreases e,
{
    match e {
        Expr::Is(node) => is_post(node, vals, reg),
        Expr::And(l, r) => expr_post(*r, vals, expr_post(*l, vals, reg)),
        Expr::Or(l, r) => expr_post(*r, vals, expr_post(*l, vals, reg)),
        Expr::Not(c) => expr_post(*c, vals, reg),
    }
}

/// The value bound to a variable in the snapshot, if any.
fn lookup_value(values: &Vec<(String, i64)>, name: &String) -> (r: Option<i64>)
    requires
        vals_wf(valsv(values@)),
    ensures
        match r {
            Some(v) => has_val(valsv(values@), name@) && v == val_of(valsv(values@), name@),
            None => !has_val(valsv(values@), name@),
        },
{
    let ghost vals = valsv(values@);
    let n = values.len();
    let mut i: usize = 0;
    while i < n
        invariant
            vals == valsv(values@),
            vals_wf(vals),
            n == values@.len(),
            i <= n,
            forall|j: int| 0 <= j < i ==> vals[j].0 != name@,
        decreases n - i,
    {
        if values[i].0 == *name {
            proof {
                assert(vals[i as int].0 == name@);
                let j = choose|j: int| 0 <= j < vals.len() && vals[j].0 == name@;
                assert(vals[j].0 == vals[i as int].0);
                assert(j == i as int);
            }
            return Some(values[i].1);
        }
        i += 1;
    }
    None
}

/// The position of the universe of the given name, if one is registered.
fn find_universe(universes: &Vec<UniversalSet>, name: &String) -> (r: Option<usize>)
    ensures
        match r {
            Some(i) => i < universes@.len() && regv(universes@)[i as int].name == name@,
            None => !has_universe(regv(universes@), name@),
        },
{
    let n = universes.len();
    let mut i: usize = 0;
    while i < n
        invariant
            n == universes@.len(),
            i <= n,
            forall|j: int| 0 <= j < i ==> regv(universes@)[j].name != name@,
        decreases n - i,
    {
        if *universes[i].name() == *name {
            return Some(i);
        }
        i += 1;
    }
    None
}

impl Expr {
    /// A membership test of `variable` against `set`.
    pub fn is(variable: String, set: String) -> (e: Expr)
        ensures
            e matches Expr::Is(n) && n.variable@ == variable@ && n.set@ == set@,
    {
        Expr::Is(Is::new(variable, set))
    }

    /// The conjunction of two expressions.
    pub fn and(left: Expr, right: Expr) -> (e: Expr)
        ensures
            e matches Expr::And(l, r) && *l == left && *r == right,
    {
        Expr::And(Box::new(left), Box::new(right))
    }

    /// The disjunction of two expressions.
    pub fn or(left: Expr, right: Expr) -> (e: Expr)
        ensures
            e matches Expr::Or(l, r) && *l == left && *r == right,
    {
        Expr::Or(Box::new(left), Box::new(right))
    }

    /// The negation of an expression.
    pub fn negate(inner: Expr) -> (e: Expr)
        ensures
            e matches Expr::Not(c) && *c == inner,
    {
        Expr::Not(Box::new(inner))
    }

    /// Grades the expression against the snapshot and the registry,
    /// memoizing membership degrees as it goes.
    pub fn eval<L: LogicOps>(
        &self,
        values: &Vec<(String, i64)>,
        universes: &mut Vec<UniversalSet>,
        logic: &L,
    ) -> (r: Result<u64, FuzzyError>)
        requires
            vals_wf(valsv(values@)),
            registry_wf(regv(old(universes)@)),
        ensures
            registry_wf(regv(final(universes)@)),
            r == expr_value(*self, valsv(values@), regv(old(universes)@), *logic),
            regv(final(universes)@) == expr_post(*self, valsv(values@), regv(old(universes)@)),
            r matches Ok(d) ==> d <= UNIT,
        decreases *self,
    {
        let ghost vals = valsv(values@);
        let ghost reg0 = regv(old(universes)@);
        match self {
            Expr::Is(node) => {
                let v = match lookup_value(values, &node.variable) {
                    Some(v) => v,
                    None => {
                        return Err(FuzzyError::UnknownVariable(node.variable.clone()));
                    },
                };
                let ui = match find_universe(universes, &node.variable) {
                    Some(ui) => ui,
                    None => {
                        return Err(FuzzyError::UnknownUniverse(node.variable.clone()));
                    },
                };
                proof {
                    let j = uni_index(reg0, node.variable@);
                    assert(reg0[ui as int].name == node.variable@);
                    assert(has_universe(reg0, node.variable@));
                    assert(reg0[j].name == node.variable@);
                    assert(j == ui as int);
                }
                let mut u = universes.remove(ui);
                let si = match u.find_set(&node.set) {
                    Some(si) => si,
                    None => {
                        let e = Err(FuzzyError::UnknownSet(node.set.clone()));
                        universes.insert(ui, u);
                        proof {
                            assert(regv(universes@) =~= reg0);
                        }
                        return e;
                    },
                };
                proof {
                    assert(uni_wf(u@));
                    let j = set_index(u@.sets, node.set@);
                    assert(u@.sets[si as int].name == node.set@);
                    assert(has_set(u@.sets, node.set@));
                    assert(u@.sets[j].name == node.set@);
                    assert(j == si as int);
                }
                let r = u.check_set_at(si, v);
                universes.insert(ui, u);
                proof {
                    assert(set_at(universe_at(reg0, node.variable@).sets, node.set@)
                        == old(universes)@[ui as int]@.sets[si as int]);
                    assert(regv(universes@) =~= is_post(*node, vals, reg0));
                    assert(registry_wf(regv(universes@))) by {
                        let post = regv(universes@);
                        assert forall|i: int| 0 <= i < post.len() implies uni_wf(
                            #[trigger] post[i],
                        ) by {
                            if i != ui as int {
                                assert(post[i] == reg0[i]);
                            }
                        }
                        assert forall|i: int, j: int|
                            0 <= i < j < post.len() implies post[i].name != post[j].name by {
                            assert(post[i].name == reg0[i].name);
                            assert(post[j].name == reg0[j].name);
                        }
                    }
                }
                r
            },
            Expr::And(l, r) => {
                let a = l.eval(values, universes, logic);
                let b = r.eval(values, universes, logic);
                match (a, b) {
                    (Ok(x), Ok(y)) => Ok(logic.and(x, y)),
                    (Err(err), _) => Err(err),
                    (_, Err(err)) => Err(err),
                }
            },
            Expr::Or(l, r) => {
                let a = l.eval(values, universes, logic);
                let b = r.eval(values, universes, logic);
                match (a, b) {
                    (Ok(x), Ok(y)) => Ok(logic.or(x, y)),
                    (Err(err), _) => Err(err),
                    (_, Err(err)) => Err(err),
                }
            },
            Expr::Not(c) => {
                match c.eval(values, universes, logic) {
                    Ok(x) => Ok(logic.not(x)),
                    Err(err) => Err(err),
                }
            },
        }
    }
}

/// The cache entries whose degree does not exceed the firing strength, in
/// cache order.
pub open spec fn filter_le(c: Seq<Entry>, s: u64) -> Seq<Entry>
    decreases c.len(),
{
    if c.len() == 0 {
        Seq::empty()
    } else {
        let rest = filter_le(c.drop_last(), s);
        if c.last().1 <= s {
            rest.push(c.last())
        } else {
            rest
        }
    }
}

/// Clipping keeps a cache well formed: every kept entry is drawn from
/// the cache that was clipped.
pub proof fn lemma_filter_le_wf(c: Seq<Entry>, s: u64)
    requires
        cache_wf(c),
    ensures
        cache_wf(filter_le(c, s)),
        forall|i: int| 0 <= i < filter_le(c, s).len() ==> exists|j: int|
            0 <= j < c.len() && #[trigger] filter_le(c, s)[i] == c[j],
    decreases c.len(),
{
    if c.len() > 0 {
        let pre = c.drop_last();
        assert(cache_wf(pre)) by {
            assert forall|i: int, j: int| 0 <= i < j < pre.len() implies pre[i].0 != pre[j].0 by {
                assert(pre[i] == c[i] && pre[j] == c[j]);
            }
            assert forall|i: int| 0 <= i < pre.len() implies crate::valid_key(
                #[trigger] pre[i].0,
            ) && 0 < pre[i].1 <= UNIT by {
                assert(pre[i] == c[i]);
            }
        }
        lemma_filter_le_wf(pre, s);
        let rest = filter_le(pre, s);
        assert forall|i: int| 0 <= i < rest.len() implies exists|j: int|
            0 <= j < c.len() && #[trigger] rest[i] == c[j] by {
            let j = choose|j: int| 0 <= j < pre.len() && rest[i] == pre[j];
            assert(rest[i] == c[j]);
        }
        if c.last().1 <= s {
            let out = rest.push(c.last());
            assert(out[out.len() - 1] == c[c.len() - 1]);
            assert forall|i: int| 0 <= i < out.len() implies exists|j: int|
                0 <= j < c.len() && #[trigger] out[i] == c[j] by {
                if i < out.len() - 1 {
                    let j = choose|j: int| 0 <= j < c.len() && rest[i] == c[j];
                    assert(out[i] == c[j]);
                } else {
                    assert(out[i] == c[c.len() - 1]);
                }
            }
            assert forall|i: int, j: int| 0 <= i < j < out.len() implies out[i].0 != out[j].0 by {
                if j == out.len() - 1 {
                    let ji = choose|ji: int| 0 <= ji < pre.len() && rest[i] == pre[ji];
                    assert(out[i] == c[ji]);
                    assert(c[ji].0 != c[c.len() - 1].0);
                }
            }
        }
    }
}

/// One inference rule: a condition bound to a target universe and set.
pub struct Rule {
    /// The condition graded to the firing strength.
    pub condition: Expr,
    /// The universe the rule writes its output for.
    pub result_universe: String,
    /// The set, within that universe, the rule clips.
    pub result_set: String,
}

/// The snapshot set a rule produces, or the failure it signals: the target
/// set's cache clipped to the entries at or below the firing strength,
/// under the name `"universe: set"`.
pub open spec fn rule_value<L: LogicOps>(
    rule: Rule,
    vals: Seq<(Seq<char>, i64)>,
    reg: Seq<UniverseView>,
    logic: L,
) -> Result<SetView, FuzzyError> {
    match expr_value(rule.condition, vals, reg, logic) {
        Err(e) => Err(e),
        Ok(strength) => {
            let reg1 = expr_post(rule.condition, vals, reg);
            if !has_universe(reg1, rule.result_universe@) {
                Err(FuzzyError::UnknownUniverse(rule.result_universe))
            } else {
                let u = universe_at(reg1, rule.result_universe@);
                if !has_set(u.sets, rule.result_set@) {
                    Err(FuzzyError::UnknownSet(rule.result_set))
                } else {
                    Ok(
                        SetView {
                            name: rule.result_universe@ + ": "@ + rule.result_set@,
                            membership: None,
                            cache: filter_le(set_at(u.sets, rule.result_set@).cache, strength),
                        },
                    )
                }
            }
        },
    }
}

/// The registry after a rule: exactly the condition's memoizations.
pub open spec fn rule_post(rule: Rule, vals: Seq<(Seq<char>, i64)>, reg: Seq<UniverseView>) -> Seq<
    UniverseView,
> {
    expr_post(rule.condition, vals, reg)
}

impl Rule {
    /// A rule firing `condition` at the target `(result_universe, result_set)`.
    pub fn new(condition: Expr, result_universe: String, result_set: String) -> (r: Rule)
        ensures
            r.condition == condition,
            r.result_universe@ == result_universe@,
            r.result_set@ == result_set@,
    {
        Rule { condition, result_universe, result_set }
    }

    /// Grades the condition, then snapshots the target set's cache entries
    /// whose degree does not exceed the firing strength. Entries above the
    /// strength are dropped, not clamped; an unpopulated target cache
    /// yields an empty result.
    pub fn compute<L: LogicOps>(
        &self,
        values: &Vec<(String, i64)>,
        universes: &mut Vec<UniversalSet>,
        logic: &L,
    ) -> (r: Result<FuzzySet, FuzzyError>)
        requires
            vals_wf(valsv(values@)),
            registry_wf(regv(old(universes)@)),
        ensures
            registry_wf(regv(final(universes)@)),
            regv(final(universes)@) == rule_post(*self, valsv(values@), regv(old(universes)@)),
            match r {
                Ok(s) => rule_value(*self, valsv(values@), regv(old(universes)@), *logic)
                    == Ok::<SetView, FuzzyError>(s@) && s.wf() && s@.membership is None,
                Err(e) => rule_value(*self, valsv(values@), regv(old(universes)@), *logic)
                    == Err::<SetView, FuzzyError>(e),
            },
    {
        let ghost vals = valsv(values@);
        let ghost reg0 = regv(old(universes)@);
        let strength = match self.condition.eval(values, universes, logic) {
            Ok(s) => s,
            Err(e) => {
                return Err(e);
            },
        };
        let ghost reg1 = regv(universes@);
        let ui = match find_universe(universes, &self.result_universe) {
            Some(ui) => ui,
            None => {
                return Err(FuzzyError::UnknownUniverse(self.result_universe.clone()));
            },
        };
        proof {
            let j = uni_index(reg1, self.result_universe@);
            assert(reg1[ui as int].name == self.result_universe@);
            assert(has_universe(reg1, self.result_universe@));
            assert(reg1[j].name == self.result_universe@);
            assert(j == ui as int);
        }
        let u = &universes[ui];
        let si = match u.find_set(&self.result_set) {
            Some(si) => si,
            None => {
                return Err(FuzzyError::UnknownSet(self.result_set.clone()));
            },
        };
        proof {
            assert(uni_wf(u@));
            let j = set_index(u@.sets, self.result_set@);
            assert(u@.sets[si as int].name == self.result_set@);
            assert(has_set(u@.sets, self.result_set@));
            assert(u@.sets[j].name == self.result_set@);
            assert(j == si as int);
            assert(set_at(universe_at(reg1, self.result_universe@).sets, self.result_set@)
                == u@.sets[si as int]);
        }
        let target = u.set_ref(si);
        let ghost c = target@.cache;
        let n = target.entry_count();
        let mut entries: Vec<Entry> = Vec::new();
        let mut i: usize = 0;
        while i < n
            invariant
                target.wf(),
                c == target@.cache,
                n == c.len(),
                i <= n,
                entries@ == filter_le(c.take(i as int), strength),
            decreases n - i,
        {
            let e = target.entry_at(i);
            proof {
                assert(c.take(i as int + 1).drop_last() =~= c.take(i as int));
                assert(c.take(i as int + 1).last() == c[i as int]);
            }
            if e.1 <= strength {
                entries.push(e);
            }
            i += 1;
        }
        proof {
            assert(c.take(n as int) =~= c);
            lemma_filter_le_wf(c, strength);
        }
        let name = self.result_universe.clone().concat(": ").concat(self.result_set.as_str());
        Ok(FuzzySet::new_with_domain(name, entries))
    }
}

/// An ordered, non-empty collection of rules sharing one result universe.
pub struct RuleSet {
    rules: Vec<Rule>,
}

/// The aggregate after folding the rules from position `i` onwards into
/// the accumulator through the set table, or the first failure met.
pub open spec fn compute_from_value<L: LogicOps, S: SetOps>(
    rules: Seq<Rule>,
    i: int,
    acc: SetView,
    vals: Seq<(Seq<char>, i64)>,
    reg: Seq<UniverseView>,
    logic: L,
    sops: S,
) -> Result<SetView, FuzzyError>
    decreases rules.len() - i,
{
    if i < 0 || i >= rules.len() {
        Ok(acc)
    } else {
        match rule_value(rules[i], vals, reg, logic) {
            Err(e) => Err(e),
            Ok(rv) => compute_from_value(
                rules,
                i + 1,
                SetView {
                    name: acc.name,
                    membership: None,
                    cache: sops.spec_union(acc.cache, rv.cache),
                },
                vals,
                rule_post(rules[i], vals, reg),
                logic,
                sops,
            ),
        }
    }
}

/// The registry after folding the rules from position `i` onwards; a
/// failing rule still leaves its condition's memoizations.
pub open spec fn compute_from_post<L: LogicOps>(
    rules: Seq<Rule>,
    i: int,
    vals: Seq<(Seq<char>, i64)>,
    reg: Seq<UniverseView>,
    logic: L,
) -> Seq<UniverseView>
    decreases rules.len() - i,
{
    if i < 0 || i >= rules.len() {
        reg
    } else {
        let reg1 = rule_post(rules[i], vals, reg);
        match rule_value(rules[i], vals, reg, logic) {
            Err(_) => reg1,
            Ok(_) => compute_from_post(rules, i + 1, vals, reg1, logic),
        }
    }
}

/// The aggregate of a whole rule set: rule `0` seeds the accumulator, the
/// remaining rules are folded left to right through the set table.
pub open spec fn compute_all_value<L: LogicOps, S: SetOps>(
    rules: Seq<Rule>,
    vals: Seq<(Seq<char>, i64)>,
    reg: Seq<UniverseView>,
    logic: L,
    sops: S,
) -> Result<SetView, FuzzyError> {
    match rule_value(rules[0], vals, reg, logic) {
        Err(e) => Err(e),
        Ok(first) => compute_from_value(
            rules,
            1,
            first,
            vals,
            rule_post(rules[0], vals, reg),
            logic,
            sops,
        ),
    }
}

/// The registry after a whole rule set.
pub open spec fn compute_all_post<L: LogicOps>(
    rules: Seq<Rule>,
    vals: Seq<(Seq<char>, i64)>,
    reg: Seq<UniverseView>,
    logic: L,
) -> Seq<UniverseView> {
    compute_from_post(rules, 0, vals, reg, logic)
}

impl RuleSet {
    /// The rules, in evaluation order.
    pub closed spec fn rules_view(&self) -> Seq<Rule> {
        self.rules@
    }

    /// The rule set's invariant: at least one rule, all rules targeting
    /// the first rule's result universe.
    pub open spec fn wf(&self) -> bool {
        &&& self.rules_view().len() > 0
        &&& forall|i: int| 0 <= i < self.rules_view().len()
            ==> (#[trigger] self.rules_view()[i]).result_universe@
            == self.rules_view()[0].result_universe@
    }

    /// Builds a rule set, rejecting an empty rule list and any rule whose
    /// result universe differs from the first rule's; the failure names
    /// the first rule's universe and the first differing one.
    pub fn new(rules: Vec<Rule>) -> (r: Result<RuleSet, FuzzyError>)
        ensures
            match r {
                Ok(rs) => {
                    &&& rules@.len() > 0
                    &&& forall|i: int| 0 <= i < rules@.len()
                        ==> (#[trigger] rules@[i]).result_universe@
                        == rules@[0].result_universe@
                    &&& rs.rules_view() == rules@
                    &&& rs.wf()
                },
                Err(e) => {
                    ||| (rules@.len() == 0 && e == FuzzyError::ConfigurationError(
                        ConfigIssue::EmptyRules,
                    ))
                    ||| (exists|i: int|
                        {
                            &&& 0 < i < rules@.len()
                            &&& (#[trigger] rules@[i]).result_universe@
                                != rules@[0].result_universe@
                            &&& (forall|j: int| 0 < j < i
                                ==> (#[trigger] rules@[j]).result_universe@
                                == rules@[0].result_universe@)
                            &&& e == FuzzyError::ConfigurationError(
                                ConfigIssue::MixedUniverses {
                                    first: rules@[0].result_universe,
                                    other: rules@[i].result_universe,
                                },
                            )
                        })
                },
            },
    {
        if rules.len() == 0 {
            return Err(FuzzyError::ConfigurationError(ConfigIssue::EmptyRules));
        }
        let n = rules.len();
        let mut i: usize = 1;
        while i < n
            invariant
                n == rules@.len(),
                1 <= i <= n,
                forall|j: int| 0 < j < i ==> (#[trigger] rules@[j]).result_universe@
                    == rules@[0].result_universe@,
            decreases n - i,
        {
            if rules[i].result_universe != rules[0].result_universe {
                return Err(
                    FuzzyError::ConfigurationError(
                        ConfigIssue::MixedUniverses {
                            first: rules[0].result_universe.clone(),
                            other: rules[i].result_universe.clone(),
                        },
                    ),
                );
            }
            i += 1;
        }
        Ok(RuleSet { rules })
    }

    /// How many rules the set holds.
    pub fn rule_count(&self) -> (n: usize)
        ensures
            n == self.rules_view().len(),
    {
        self.rules.len()
    }

    /// A shared view of the rule at a position.
    pub fn rule_at(&self, i: usize) -> (r: &Rule)
        requires
            i < self.rules_view().len(),
        ensures
            *r == self.rules_view()[i as int],
    {
        &self.rules[i]
    }

    /// Computes every rule in order and folds the outputs into one
    /// aggregate snapshot set through the set table.
    pub fn compute_all<L: LogicOps, S: SetOps>(
        &self,
        values: &Vec<(String, i64)>,
        universes: &mut Vec<UniversalSet>,
        logic: &L,
        sops: &S,
    ) -> (r: Result<FuzzySet, FuzzyError>)
        requires
            self.wf(),
            vals_wf(valsv(values@)),
            registry_wf(regv(old(universes)@)),
        ensures
            registry_wf(regv(final(universes)@)),
            regv(final(universes)@) == compute_all_post(
                self.rules_view(),
                valsv(values@),
                regv(old(universes)@),
                *logic,
            ),
            match r {
                Ok(s) => compute_all_value(
                    self.rules_view(),
                    valsv(values@),
                    regv(old(universes)@),
                    *logic,
                    *sops,
                ) == Ok::<SetView, FuzzyError>(s@) && s.wf() && s@.membership is None,
                Err(e) => compute_all_value(
                    self.rules_view(),
                    valsv(values@),
                    regv(old(universes)@),
                    *logic,
                    *sops,
                ) == Err::<SetView, FuzzyError>(e),
            },
    {
        let ghost rules = self.rules_view();
        let ghost vals = valsv(values@);
        let ghost reg0 = regv(old(universes)@);
        let mut acc = match self.rules[0].compute(values, universes, logic) {
            Ok(s) => s,
            Err(e) => {
                proof {
                    assert(rule_value(rules[0], vals, reg0, *logic) == Err::<SetView, FuzzyError>(
                        e,
                    ));
                    assert(compute_from_post(rules, 0, vals, reg0, *logic) == rule_post(
                        rules[0],
                        vals,
                        reg0,
                    ));
                    assert(compute_all_value(rules, vals, reg0, *logic, *sops)
                        == Err::<SetView, FuzzyError>(e));
                }
                return Err(e);
            },
        };
        let n = self.rules.len();
        let mut i: usize = 1;
        while i < n
            invariant
                self.wf(),
                rules == self.rules_view(),
                vals == valsv(values@),
                reg0 == regv(old(universes)@),
                vals_wf(vals),
                n == rules.len(),
                1 <= i <= n,
                acc.wf(),
                acc@.membership is None,
                registry_wf(regv(universes@)),
                compute_from_value(rules, i as int, acc@, vals, regv(universes@), *logic, *sops)
                    == compute_all_value(rules, vals, reg0, *logic, *sops),
                compute_from_post(rules, i as int, vals, regv(universes@), *logic)
                    == compute_all_post(rules, vals, reg0, *logic),
            decreases n - i,
        {
            let ghost cur = regv(universes@);
            let ghost acc0 = acc@;
            let out = match self.rules[i].compute(values, universes, logic) {
                Ok(s) => s,
                Err(e) => {
                    proof {
                        assert(rule_value(rules[i as int], vals, cur, *logic) == Err::<
                            SetView,
                            FuzzyError,
                        >(e));
                        assert(compute_from_value(rules, i as int, acc0, vals, cur, *logic, *sops)
                            == Err::<SetView, FuzzyError>(e));
                        assert(compute_from_post(rules, i as int, vals, cur, *logic) == rule_post(
                            rules[i as int],
                            vals,
                            cur,
                        ));
                    }
                    return Err(e);
                },
            };
            acc = sops.union(&acc, &out);
            proof {
                assert(acc@ == (SetView {
                    name: acc0.name,
                    membership: None,
                    cache: sops.spec_union(acc0.cache, out@.cache),
                }));
                assert(compute_from_value(rules, i as int, acc0, vals, cur, *logic, *sops)
                    == compute_from_value(
                    rules,
                    i as int + 1,
                    acc@,
                    vals,
                    rule_post(rules[i as int], vals, cur),
                    *logic,
                    *sops,
                ));
                assert(compute_from_post(rules, i as int, vals, cur, *logic) == compute_from_post(
                    rules,
                    i as int + 1,
                    vals,
                    rule_post(rules[i as int], vals, cur),
                    *logic,
                ));
            }
            i += 1;
        }
        Ok(acc)
    }
}


/// Two registries with the same shape: same universe names and domains,
/// same set names and membership functions; only caches may differ.
pub open spec fn uni_skeleton_eq(u1: UniverseView, u2: UniverseView) -> bool {
    &&& u1.name == u2.name
    &&& u1.domain == u2.domain
    &&& u1.sets.len() == u2.sets.len()
    &&& forall|j: int| 0 <= j < u1.sets.len() ==> (#[trigger] u1.sets[j]).name == u2.sets[j].name
        && u1.sets[j].membership == u2.sets[j].membership
}

/// Registries of the same shape, universe by universe.
pub open spec fn skeleton_eq(r1: Seq<UniverseView>, r2: Seq<UniverseView>) -> bool {
    &&& r1.len() == r2.len()
    &&& forall|i: int| 0 <= i < r1.len() ==> uni_skeleton_eq(#[trigger] r1[i], #[trigger] r2[i])
}

/// Shape equality is transitive.
proof fn lemma_skeleton_trans(a: Seq<UniverseView>, b: Seq<UniverseView>, c: Seq<UniverseView>)
    requires
        skeleton_eq(a, b),
        skeleton_eq(b, c),
    ensures
        skeleton_eq(a, c),
{
    assert forall|i: int| 0 <= i < a.len() implies uni_skeleton_eq(
        #[trigger] a[i],
        #[trigger] c[i],
    ) by {
        assert(uni_skeleton_eq(a[i], b[i]));
        assert(uni_skeleton_eq(b[i], c[i]));
        assert forall|j: int| 0 <= j < a[i].sets.len() implies (#[trigger] a[i].sets[j]).name
            == c[i].sets[j].name && a[i].sets[j].membership == c[i].sets[j].membership by {
            assert(a[i].sets[j].name == b[i].sets[j].name);
            assert(b[i].sets[j].name == c[i].sets[j].name);
            assert(a[i].sets[j].membership == b[i].sets[j].membership);
        }
    }
}

/// Shape equality is symmetric.
proof fn lemma_skeleton_sym(a: Seq<UniverseView>, b: Seq<UniverseView>)
    requires
        skeleton_eq(a, b),
    ensures
        skeleton_eq(b, a),
{
    assert forall|i: int| 0 <= i < b.len() implies uni_skeleton_eq(
        #[trigger] b[i],
        #[trigger] a[i],
    ) by {
        assert(uni_skeleton_eq(a[i], b[i]));
        assert forall|j: int| 0 <= j < b[i].sets.len() implies (#[trigger] b[i].sets[j]).name
            == a[i].sets[j].name && b[i].sets[j].membership == a[i].sets[j].membership by {
            assert(a[i].sets[j].name == b[i].sets[j].name);
        }
    }
}

/// Whether no membership test of the expression names the given universe.
pub open spec fn expr_avoids(e: Expr, name: Seq<char>) -> bool
    decreases e,
{
    match e {
        Expr::Is(node) => node.variable@ != name,
        Expr::And(l, r) => expr_avoids(*l, name) && expr_avoids(*r, name),
        Expr::Or(l, r) => expr_avoids(*l, name) && expr_avoids(*r, name),
        Expr::Not(c) => expr_avoids(*c, name),
    }
}

/// Grading an expression keeps the registry's shape and well-formedness,
/// and leaves every universe the expression avoids untouched.
proof fn lemma_expr_post_props(e: Expr, vals: Seq<(Seq<char>, i64)>, reg: Seq<UniverseView>)
    requires
        registry_wf(reg),
    ensures
        registry_wf(expr_post(e, vals, reg)),
        skeleton_eq(reg, expr_post(e, vals, reg)),
        forall|n: Seq<char>| expr_avoids(e, n) && has_universe(reg, n) ==> universe_at(
            expr_post(e, vals, reg),
            n,
        ) == universe_at(reg, n),
    decreases e,
{
    match e {
        Expr::Is(node) => {
            lemma_is_post_props(node, vals, reg);
        },
        Expr::And(l, r) => {
            lemma_expr_post_props(*l, vals, reg);
            let mid = expr_post(*l, vals, reg);
            lemma_expr_post_props(*r, vals, mid);
            lemma_skeleton_trans(reg, mid, expr_post(*r, vals, mid));
            assert forall|n: Seq<char>|
                expr_avoids(e, n) && has_universe(reg, n) implies universe_at(
                expr_post(e, vals, reg),
                n,
            ) == universe_at(reg, n) by {
                lemma_has_universe_skeleton(reg, mid, n);
            }
        },
        Expr::Or(l, r) => {
            lemma_expr_post_props(*l, vals, reg);
            let mid = expr_post(*l, vals, reg);
            lemma_expr_post_props(*r, vals, mid);
            lemma_skeleton_trans(reg, mid, expr_post(*r, vals, mid));
            assert forall|n: Seq<char>|
                expr_avoids(e, n) && has_universe(reg, n) implies universe_at(
                expr_post(e, vals, reg),
                n,
            ) == universe_at(reg, n) by {
                lemma_has_universe_skeleton(reg, mid, n);
            }
        },
        Expr::Not(c) => {
            lemma_expr_post_props(*c, vals, reg);
        },
    }
}

/// Shape-equal registries hold the same universe names.
proof fn lemma_has_universe_skeleton(r1: Seq<UniverseView>, r2: Seq<UniverseView>, n: Seq<char>)
    requires
        skeleton_eq(r1, r2),
    ensures
        has_universe(r1, n) <==> has_universe(r2, n),
{
    if has_universe(r1, n) {
        let i = choose|i: int| 0 <= i < r1.len() && r1[i].name == n;
        assert(uni_skeleton_eq(r1[i], r2[i]));
        assert(r2[i].name == n);
    }
    if has_universe(r2, n) {
        let i = choose|i: int| 0 <= i < r2.len() && r2[i].name == n;
        assert(uni_skeleton_eq(r1[i], r2[i]));
        assert(r1[i].name == n);
    }
}

/// A membership test keeps the registry's shape and well-formedness and
/// touches only the universe it names.
proof fn lemma_is_post_props(node: Is, vals: Seq<(Seq<char>, i64)>, reg: Seq<UniverseView>)
    requires
        registry_wf(reg),
    ensures
        registry_wf(is_post(node, vals, reg)),
        skeleton_eq(reg, is_post(node, vals, reg)),
        forall|n: Seq<char>| n != node.variable@ && has_universe(reg, n) ==> universe_at(
            is_post(node, vals, reg),
            n,
        ) == universe_at(reg, n),
{
    let post = is_post(node, vals, reg);
    if has_val(vals, node.variable@) && has_universe(reg, node.variable@) && has_set(
        universe_at(reg, node.variable@).sets,
        node.set@,
    ) {
        let ui = uni_index(reg, node.variable@);
        let u = reg[ui];
        let si = set_index(u.sets, node.set@);
        let x = val_of(vals, node.variable@);
        let s0 = u.sets[si];
        let s1 = spec_check_post(s0, x);
        assert(0 <= ui < reg.len() && reg[ui].name == node.variable@);
        assert(uni_wf(u));
        assert(0 <= si < u.sets.len() && u.sets[si].name == node.set@);
        assert(set_wf(s0));
        assert(s1.name == s0.name && s1.membership == s0.membership);
        assert(set_wf(s1)) by {
            match spec_check(s0, x) {
                Ok(d) => {
                    if !cache_has(s0.cache, x) && d > 0 {
                        let m = s0.membership->0;
                        crate::functions::lemma_mem_value_bound(m, x);
                        assert(s1.cache == s0.cache.push((x, d)));
                        assert(s1.cache[s1.cache.len() - 1] == (x, d));
                        assert(unique_keys(s1.cache)) by {
                            assert forall|i: int, j: int|
                                0 <= i < j < s1.cache.len() implies s1.cache[i].0
                                != s1.cache[j].0 by {
                                if j < s0.cache.len() {
                                    assert(s1.cache[i] == s0.cache[i]);
                                    assert(s1.cache[j] == s0.cache[j]);
                                } else {
                                    assert(s1.cache[i] == s0.cache[i]);
                                    assert(!cache_has(s0.cache, x));
                                }
                            }
                        }
                        assert forall|i: int| 0 <= i < s1.cache.len() implies crate::valid_key(
                            (#[trigger] s1.cache[i]).0,
                        ) && 0 < s1.cache[i].1 <= UNIT by {
                            if i < s0.cache.len() {
                                assert(s1.cache[i] == s0.cache[i]);
                            }
                        }
                        assert forall|i: int| 0 <= i < s1.cache.len() implies (
                        #[trigger] s1.cache[i]).1 == crate::functions::mem_value(
                            m,
                            s1.cache[i].0,
                        ) by {
                            if i < s0.cache.len() {
                                assert(s1.cache[i] == s0.cache[i]);
                            }
                        }
                    }
                },
                Err(_) => {},
            }
        }
        let u1 = UniverseView { sets: u.sets.update(si, s1), ..u };
        assert(post == reg.update(ui, u1));
        assert(uni_wf(u1)) by {
            assert forall|i: int, j: int| 0 <= i < j < u1.sets.len() implies u1.sets[i].name
                != u1.sets[j].name by {
                assert(u.sets[i].name != u.sets[j].name);
            }
            assert forall|i: int| 0 <= i < u1.sets.len() implies set_wf(#[trigger] u1.sets[i])
                && u1.sets[i].membership is Some by {
                if i != si {
                    assert(u1.sets[i] == u.sets[i]);
                }
            }
        }
        assert(uni_skeleton_eq(u, u1)) by {
            assert forall|j: int| 0 <= j < u.sets.len() implies (#[trigger] u.sets[j]).name
                == u1.sets[j].name && u.sets[j].membership == u1.sets[j].membership by {
                if j != si {
                    assert(u1.sets[j] == u.sets[j]);
                }
            }
        }
        assert(registry_wf(post)) by {
            assert forall|i: int| 0 <= i < post.len() implies uni_wf(#[trigger] post[i]) by {
                if i != ui {
                    assert(post[i] == reg[i]);
                }
            }
            assert forall|i: int, j: int| 0 <= i < j < post.len() implies post[i].name
                != post[j].name by {
                assert(post[i].name == reg[i].name);
                assert(post[j].name == reg[j].name);
            }
        }
        assert(skeleton_eq(reg, post)) by {
            assert forall|i: int| 0 <= i < reg.len() implies uni_skeleton_eq(
                #[trigger] reg[i],
                #[trigger] post[i],
            ) by {
                if i != ui {
                    assert(post[i] == reg[i]);
                    assert forall|j: int| 0 <= j < reg[i].sets.len() implies (
                    #[trigger] reg[i].sets[j]).name == post[i].sets[j].name
                        && reg[i].sets[j].membership == post[i].sets[j].membership by {}
                }
            }
        }
        assert forall|n: Seq<char>|
            n != node.variable@ && has_universe(reg, n) implies universe_at(post, n)
            == universe_at(reg, n) by {
            let k = uni_index(reg, n);
            assert(0 <= k < reg.len() && reg[k].name == n);
            assert(k != ui);
            assert(post[k] == reg[k]);
            let k2 = uni_index(post, n);
            assert(0 <= k2 < post.len() && post[k2].name == n);
            assert(post[k2].name == reg[k2].name);
            assert(k2 == k);
        }
    } else {
        assert(post == reg);
        assert forall|i: int| 0 <= i < reg.len() implies uni_skeleton_eq(
            #[trigger] reg[i],
            #[trigger] post[i],
        ) by {}
    }
}


/// Shape equality is reflexive.
proof fn lemma_skeleton_refl(a: Seq<UniverseView>)
    ensures
        skeleton_eq(a, a),
{
    assert forall|i: int| 0 <= i < a.len() implies uni_skeleton_eq(
        #[trigger] a[i],
        #[trigger] a[i],
    ) by {}
}

/// In shape-equal registries the universe of a name sits at the same
/// position and has the same shape.
proof fn lemma_universe_at_skeleton(r1: Seq<UniverseView>, r2: Seq<UniverseView>, n: Seq<char>)
    requires
        registry_wf(r1),
        skeleton_eq(r1, r2),
        has_universe(r1, n),
    ensures
        has_universe(r2, n),
        uni_index(r2, n) == uni_index(r1, n),
        uni_skeleton_eq(universe_at(r1, n), universe_at(r2, n)),
{
    let i1 = uni_index(r1, n);
    assert(0 <= i1 < r1.len() && r1[i1].name == n);
    assert(uni_skeleton_eq(r1[i1], r2[i1]));
    assert(r2[i1].name == n);
    let i2 = uni_index(r2, n);
    assert(0 <= i2 < r2.len() && r2[i2].name == n);
    assert(uni_skeleton_eq(r1[i2], r2[i2]));
    assert(r1[i2].name == n);
    assert(i2 == i1);
}

/// A membership test grades to the same degree, or fails the same way,
/// against shape-equal registries: the caches play no part in the value.
proof fn lemma_is_value_skeleton(
    node: Is,
    vals: Seq<(Seq<char>, i64)>,
    r1: Seq<UniverseView>,
    r2: Seq<UniverseView>,
)
    requires
        registry_wf(r1),
        registry_wf(r2),
        skeleton_eq(r1, r2),
    ensures
        is_value(node, vals, r1) == is_value(node, vals, r2),
{
    let n = node.variable@;
    lemma_has_universe_skeleton(r1, r2, n);
    if has_val(vals, n) && has_universe(r1, n) {
        lemma_universe_at_skeleton(r1, r2, n);
        let u1 = universe_at(r1, n);
        let u2 = universe_at(r2, n);
        assert(uni_wf(u1)) by {
            assert(r1[uni_index(r1, n)] == u1);
        }
        if has_set(u1.sets, node.set@) {
            let j1 = set_index(u1.sets, node.set@);
            assert(0 <= j1 < u1.sets.len() && u1.sets[j1].name == node.set@);
            assert(u2.sets[j1].name == node.set@);
            assert(has_set(u2.sets, node.set@));
            let j2 = set_index(u2.sets, node.set@);
            assert(0 <= j2 < u2.sets.len() && u2.sets[j2].name == node.set@);
            assert(u1.sets[j2].name == node.set@);
            assert(j2 == j1);
            assert(u1.sets[j1].membership == u2.sets[j1].membership);
        } else {
            if has_set(u2.sets, node.set@) {
                let j = choose|j: int| 0 <= j < u2.sets.len() && u2.sets[j].name == node.set@;
                assert(u1.sets[j].name == node.set@);
            }
        }
    }
}

/// An expression grades to the same degree, or fails the same way,
/// against shape-equal registries.
proof fn lemma_expr_value_skeleton<L: LogicOps>(
    e: Expr,
    vals: Seq<(Seq<char>, i64)>,
    r1: Seq<UniverseView>,
    r2: Seq<UniverseView>,
    logic: L,
)
    requires
        registry_wf(r1),
        registry_wf(r2),
        skeleton_eq(r1, r2),
    ensures
        expr_value(e, vals, r1, logic) == expr_value(e, vals, r2, logic),
    decreases e,
{
    match e {
        Expr::Is(node) => {
            lemma_is_value_skeleton(node, vals, r1, r2);
        },
        Expr::And(l, r) => {
            lemma_expr_value_skeleton(*l, vals, r1, r2, logic);
            lemma_expr_post_props(*l, vals, r1);
            lemma_expr_post_props(*l, vals, r2);
            let m1 = expr_post(*l, vals, r1);
            let m2 = expr_post(*l, vals, r2);
            lemma_skeleton_sym(r1, m1);
            lemma_skeleton_trans(m1, r1, r2);
            lemma_skeleton_trans(m1, r2, m2);
            lemma_expr_value_skeleton(*r, vals, m1, m2, logic);
        },
        Expr::Or(l, r) => {
            lemma_expr_value_skeleton(*l, vals, r1, r2, logic);
            lemma_expr_post_props(*l, vals, r1);
            lemma_expr_post_props(*l, vals, r2);
            let m1 = expr_post(*l, vals, r1);
            let m2 = expr_post(*l, vals, r2);
            lemma_skeleton_sym(r1, m1);
            lemma_skeleton_trans(m1, r1, r2);
            lemma_skeleton_trans(m1, r2, m2);
            lemma_expr_value_skeleton(*r, vals, m1, m2, logic);
        },
        Expr::Not(c) => {
            lemma_expr_value_skeleton(*c, vals, r1, r2, logic);
        },
    }
}

/// A rule produces the same output, or fails the same way, against
/// shape-equal registries whose target universe carries the same caches,
/// provided its condition avoids that universe.
proof fn lemma_rule_stable<L: LogicOps>(
    rule: Rule,
    vals: Seq<(Seq<char>, i64)>,
    r1: Seq<UniverseView>,
    r2: Seq<UniverseView>,
    logic: L,
    uname: Seq<char>,
)
    requires
        registry_wf(r1),
        registry_wf(r2),
        skeleton_eq(r1, r2),
        expr_avoids(rule.condition, uname),
        rule.result_universe@ == uname,
        has_universe(r1, uname) ==> universe_at(r1, uname) == universe_at(r2, uname),
    ensures
        rule_value(rule, vals, r1, logic) == rule_value(rule, vals, r2, logic),
        registry_wf(rule_post(rule, vals, r1)),
        registry_wf(rule_post(rule, vals, r2)),
        skeleton_eq(rule_post(rule, vals, r1), rule_post(rule, vals, r2)),
        has_universe(rule_post(rule, vals, r1), uname) ==> universe_at(
            rule_post(rule, vals, r1),
            uname,
        ) == universe_at(rule_post(rule, vals, r2), uname),
{
    lemma_expr_value_skeleton(rule.condition, vals, r1, r2, logic);
    lemma_expr_post_props(rule.condition, vals, r1);
    lemma_expr_post_props(rule.condition, vals, r2);
    let p1 = expr_post(rule.condition, vals, r1);
    let p2 = expr_post(rule.condition, vals, r2);
    lemma_skeleton_sym(r1, p1);
    lemma_skeleton_trans(p1, r1, r2);
    lemma_skeleton_trans(p1, r2, p2);
    lemma_has_universe_skeleton(r1, p1, uname);
    lemma_has_universe_skeleton(r1, r2, uname);
    lemma_has_universe_skeleton(r2, p2, uname);
    if has_universe(p1, uname) {
        assert(universe_at(p1, uname) == universe_at(r1, uname));
        assert(universe_at(p2, uname) == universe_at(r2, uname));
        assert(universe_at(p1, uname) == universe_at(p2, uname));
    }
}

/// Folding the rules from position `i` onwards reaches the same result
/// against shape-equal registries whose shared result universe carries
/// the same caches, provided every condition avoids that universe.
proof fn lemma_compute_from_stable<L: LogicOps, S: SetOps>(
    rules: Seq<Rule>,
    i: int,
    acc: SetView,
    vals: Seq<(Seq<char>, i64)>,
    r1: Seq<UniverseView>,
    r2: Seq<UniverseView>,
    logic: L,
    sops: S,
    uname: Seq<char>,
)
    requires
        registry_wf(r1),
        registry_wf(r2),
        skeleton_eq(r1, r2),
        forall|k: int| 0 <= k < rules.len() ==> (#[trigger] rules[k]).result_universe@ == uname
            && expr_avoids(rules[k].condition, uname),
        has_universe(r1, uname) ==> universe_at(r1, uname) == universe_at(r2, uname),
    ensures
        compute_from_value(rules, i, acc, vals, r1, logic, sops) == compute_from_value(
            rules,
            i,
            acc,
            vals,
            r2,
            logic,
            sops,
        ),
    decreases rules.len() - i,
{
    if 0 <= i < rules.len() {
        lemma_rule_stable(rules[i], vals, r1, r2, logic, uname);
        match rule_value(rules[i], vals, r1, logic) {
            Err(_) => {},
            Ok(rv) => {
                lemma_compute_from_stable(
                    rules,
                    i + 1,
                    SetView {
                        name: acc.name,
                        membership: None,
                        cache: sops.spec_union(acc.cache, rv.cache),
                    },
                    vals,
                    rule_post(rules[i], vals, r1),
                    rule_post(rules[i], vals, r2),
                    logic,
                    sops,
                    uname,
                );
            },
        }
    }
}

/// Running the rules leaves the registry well formed and shape-equal, and
/// leaves the shared result universe untouched when every condition
/// avoids it.
proof fn lemma_compute_post_props<L: LogicOps>(
    rules: Seq<Rule>,
    i: int,
    vals: Seq<(Seq<char>, i64)>,
    reg: Seq<UniverseView>,
    logic: L,
    uname: Seq<char>,
)
    requires
        registry_wf(reg),
        forall|k: int| 0 <= k < rules.len() ==> expr_avoids(
            (#[trigger] rules[k]).condition,
            uname,
        ),
    ensures
        registry_wf(compute_from_post(rules, i, vals, reg, logic)),
        skeleton_eq(reg, compute_from_post(rules, i, vals, reg, logic)),
        has_universe(reg, uname) ==> universe_at(compute_from_post(rules, i, vals, reg, logic), uname)
            == universe_at(reg, uname),
    decreases rules.len() - i,
{
    if 0 <= i < rules.len() {
        lemma_expr_post_props(rules[i].condition, vals, reg);
        let p = rule_post(rules[i], vals, reg);
        match rule_value(rules[i], vals, reg, logic) {
            Err(_) => {},
            Ok(_) => {
                lemma_compute_post_props(rules, i + 1, vals, p, logic, uname);
                lemma_skeleton_trans(reg, p, compute_from_post(rules, i + 1, vals, p, logic));
                lemma_has_universe_skeleton(reg, p, uname);
            },
        }
    } else {
        lemma_skeleton_refl(reg);
    }
}

/// Computing a cycle twice with an unchanged snapshot and unchanged
/// operator tables reaches the same aggregate, despite the caches the
/// first cycle grew, provided no condition names the shared result
/// universe as an input variable. A rule whose condition reads its own
/// result universe memoizes into the cache it then clips, so a second
/// cycle may see a larger cache there; such rule sets are left out.
pub proof fn lemma_compute_idempotent<L: LogicOps, S: SetOps>(
    rules: Seq<Rule>,
    vals: Seq<(Seq<char>, i64)>,
    reg: Seq<UniverseView>,
    logic: L,
    sops: S,
)
    requires
        registry_wf(reg),
        rules.len() > 0,
        forall|k: int| 0 <= k < rules.len() ==> (#[trigger] rules[k]).result_universe@
            == rules[0].result_universe@ && expr_avoids(
            rules[k].condition,
            rules[0].result_universe@,
        ),
    ensures
        compute_all_value(rules, vals, compute_all_post(rules, vals, reg, logic), logic, sops)
            == compute_all_value(rules, vals, reg, logic, sops),
{
    let uname = rules[0].result_universe@;
    let reg1 = compute_all_post(rules, vals, reg, logic);
    lemma_compute_post_props(rules, 0, vals, reg, logic, uname);
    lemma_skeleton_sym(reg, reg1);
    lemma_has_universe_skeleton(reg, reg1, uname);
    lemma_rule_stable(rules[0], vals, reg1, reg, logic, uname);
    match rule_value(rules[0], vals, reg, logic) {
        Err(_) => {},
        Ok(first) => {
            lemma_compute_from_stable(
                rules,
                1,
                first,
                vals,
                rule_post(rules[0], vals, reg1),
                rule_post(rules[0], vals, reg),
                logic,
                sops,
                uname,
            );
        },
    }
}


/// The diagnostic rendering of an expression.
pub open spec fn render_expr(e: Expr) -> Seq<char>
    decreases e,
{
    match e {
        Expr::Is(n) => "(is "@ + n.variable@ + " "@ + n.set@ + ")"@,
        Expr::And(l, r) => "(and "@ + render_expr(*l) + " "@ + render_expr(*r) + ")"@,
        Expr::Or(l, r) => "(or "@ + render_expr(*l) + " "@ + render_expr(*r) + ")"@,
        Expr::Not(c) => "(not "@ + render_expr(*c) + ")"@,
    }
}

/// The diagnostic rendering of a rule.
pub open spec fn render_rule(rule: Rule) -> Seq<char> {
    "(Rule "@ + rule.result_universe@ + ":"@ + rule.result_set@ + " if:"@ + render_expr(
        rule.condition,
    ) + ")"@
}

/// The diagnostic rendering of the rules from position `i` onwards, one
/// per line.
pub open spec fn render_rules_from(rules: Seq<Rule>, i: int) -> Seq<char>
    decreases rules.len() - i,
{
    if i < 0 || i >= rules.len() {
        Seq::empty()
    } else {
        "\t"@ + render_rule(rules[i]) + "\n"@ + render_rules_from(rules, i + 1)
    }
}

impl Expr {
    /// The human-readable form of the expression, for diagnostics only.
    pub fn render(&self) -> (r: String)
        ensures
            r@ == render_expr(*self),
        decreases *self,
    {
        match self {
            Expr::Is(n) => "(is ".to_owned().concat(n.variable.as_str()).concat(" ").concat(
                n.set.as_str(),
            ).concat(")"),
            Expr::And(l, r) => {
                let ls = l.render();
                let rs = r.render();
                "(and ".to_owned().concat(ls.as_str()).concat(" ").concat(rs.as_str()).concat(")")
            },
            Expr::Or(l, r) => {
                let ls = l.render();
                let rs = r.render();
                "(or ".to_owned().concat(ls.as_str()).concat(" ").concat(rs.as_str()).concat(")")
            },
            Expr::Not(c) => {
                let cs = c.render();
                "(not ".to_owned().concat(cs.as_str()).concat(")")
            },
        }
    }
}

impl Rule {
    /// The human-readable form of the rule, for diagnostics only.
    pub fn render(&self) -> (r: String)
        ensures
            r@ == render_rule(*self),
    {
        let cs = self.condition.render();
        "(Rule ".to_owned().concat(self.result_universe.as_str()).concat(":").concat(
            self.result_set.as_str(),
        ).concat(" if:").concat(cs.as_str()).concat(")")
    }
}

impl RuleSet {
    /// The rules from position `i` onwards, one per line.
    fn render_from(&self, i: usize) -> (r: String)
        requires
            i <= self.rules_view().len(),
        ensures
            r@ == render_rules_from(self.rules_view(), i as int),
        decreases self.rules_view().len() - i,
    {
        if i >= self.rules.len() {
            String::new()
        } else {
            let rs = self.rules[i].render();
            let rest = self.render_from(i + 1);
            "\t".to_owned().concat(rs.as_str()).concat("\n").concat(rest.as_str())
        }
    }

    /// The human-readable form of the rule set, for diagnostics only.
    pub fn render(&self) -> (r: String)
        ensures
            r@ == "(RuleSet\n"@ + render_rules_from(self.rules_view(), 0) + ")"@,
    {
        let body = self.render_from(0);
        "(RuleSet\n".to_owned().concat(body.as_str()).concat(")")
    }
}


} // verus!
