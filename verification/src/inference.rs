//! The inference machine.
//!
//! The machine owns the rule set, the universe registry, the current input
//! snapshot and the operator tables; one `compute` cycle folds every
//! rule's output into an aggregate set and defuzzifies it into a crisp
//! value.

use vstd::prelude::*;
use crate::errors::FuzzyError;
use crate::set::{SetView, UniversalSet, UniverseView};
use crate::ops::{LogicOps, SetOps, DefuzzFunc};
use crate::rules::{
    RuleSet, valsv, regv, vals_wf, registry_wf, compute_all_value, compute_all_post,
    expr_avoids, lemma_compute_idempotent,
};

verus! {

/// The pluggable operator tables, immutable for a computation cycle.
pub struct InferenceOptions<L: LogicOps, S: SetOps, D: DefuzzFunc> {
    /// Scalar fuzzy logic: and, or, not.
    pub logic_ops: L,
    /// The set fold used to aggregate rule outputs.
    pub set_ops: S,
    /// The defuzzification strategy.
    pub defuzz_func: D,
}

/// The top-level owner of rules, universes, inputs and operator tables.
pub struct InferenceMachine<L: LogicOps, S: SetOps, D: DefuzzFunc> {
    /// The rules evaluated each cycle.
    pub rules: RuleSet,
    /// The universe registry, mutated only through cache memoization.
    pub universes: Vec<UniversalSet>,
    /// The current input snapshot, replaced wholesale by `update`.
    pub values: Vec<(String, i64)>,
    /// The operator tables.
    pub options: InferenceOptions<L, S, D>,
}

impl<L: LogicOps, S: SetOps, D: DefuzzFunc> InferenceMachine<L, S, D> {
    /// The machine's invariant: a valid rule set, distinct input names and
    /// a well-formed registry.
    pub open spec fn wf(&self) -> bool {
        &&& self.rules.wf()
        &&& vals_wf(valsv(self.values@))
        &&& registry_wf(regv(self.universes@))
    }

    /// A machine with an empty input snapshot.
    pub fn new(
        rules: RuleSet,
        universes: Vec<UniversalSet>,
        options: InferenceOptions<L, S, D>,
    ) -> (m: InferenceMachine<L, S, D>)
        requires
            rules.wf(),
            registry_wf(regv(universes@)),
        ensures
            m.rules == rules,
            m.universes == universes,
            m.values@ == Seq::<(String, i64)>::empty(),
            m.options == options,
            m.wf(),
    {
        InferenceMachine { rules, universes, values: Vec::new(), options }
    }

    /// Replaces the whole input snapshot with a copy of `values`; a
    /// variable absent from the new snapshot becomes unresolvable.
    pub fn update(&mut self, values: &Vec<(String, i64)>)
        ensures
            final(self).rules == old(self).rules,
            final(self).universes == old(self).universes,
            final(self).options == old(self).options,
            final(self).values@ == values@,
    {
        let n = values.len();
        let mut out: Vec<(String, i64)> = Vec::new();
        let mut i: usize = 0;
        while i < n
            invariant
                n == values@.len(),
                i <= n,
                out@.len() == i,
                forall|j: int| 0 <= j < i ==> out@[j] == values@[j],
            decreases n - i,
        {
            out.push((values[i].0.clone(), values[i].1));
            i += 1;
        }
        proof {
            assert(out@ =~= values@);
        }
        self.values = out;
    }

    /// Runs one inference cycle: every rule is computed against the
    /// current snapshot, the outputs are folded through the set table,
    /// and the aggregate is defuzzified. Returns the aggregate's name and
    /// the crisp value.
    pub fn compute(&mut self) -> (r: Result<(String, i64), FuzzyError>)
        requires
            old(self).wf(),
        ensures
            final(self).wf(),
            final(self).rules == old(self).rules,
            final(self).values == old(self).values,
            final(self).options == old(self).options,
            regv(final(self).universes@) == compute_all_post(
                old(self).rules.rules_view(),
                valsv(old(self).values@),
                regv(old(self).universes@),
                old(self).options.logic_ops,
            ),
            match r {
                Ok(p) => compute_all_value(
                    old(self).rules.rules_view(),
                    valsv(old(self).values@),
                    regv(old(self).universes@),
                    old(self).options.logic_ops,
                    old(self).options.set_ops,
                ) matches Ok(sv) && p.0@ == sv.name && p.1
                    == old(self).options.defuzz_func.spec_defuzz(sv.cache),
                Err(e) => compute_all_value(
                    old(self).rules.rules_view(),
                    valsv(old(self).values@),
                    regv(old(self).universes@),
                    old(self).options.logic_ops,
                    old(self).options.set_ops,
                ) == Err::<SetView, FuzzyError>(e),
            },
    {
        let result = self.rules.compute_all(
            &self.values,
            &mut self.universes,
            &self.options.logic_ops,
            &self.options.set_ops,
        );
        match result {
            Ok(s) => {
                let crisp = self.options.defuzz_func.defuzz(&s);
                Ok((s.name().clone(), crisp))
            },
            Err(e) => Err(e),
        }
    }
}

/// Two consecutive compute cycles over an unchanged snapshot and
/// unchanged operator tables reach the same aggregate, so the second
/// cycle returns the same label and the same crisp value as the first,
/// despite the membership caches the first cycle grew. The proviso: no
/// condition may name the shared result universe as an input variable,
/// for such a condition memoizes into the very cache its rule then clips.
pub proof fn lemma_compute_cycle_idempotent<L: LogicOps, S: SetOps, D: DefuzzFunc>(
    rules: RuleSet,
    vals: Seq<(Seq<char>, i64)>,
    reg: Seq<UniverseView>,
    logic: L,
    sops: S,
    dfz: D,
)
    requires
        rules.wf(),
        registry_wf(reg),
        forall|k: int| 0 <= k < rules.rules_view().len() ==> expr_avoids(
            (#[trigger] rules.rules_view()[k]).condition,
            rules.rules_view()[0].result_universe@,
        ),
    ensures
        ({
            let v0 = compute_all_value(rules.rules_view(), vals, reg, logic, sops);
            let v1 = compute_all_value(
                rules.rules_view(),
                vals,
                compute_all_post(rules.rules_view(), vals, reg, logic),
                logic,
                sops,
            );
            &&& v1 == v0
            &&& (v0 matches Ok(sv) ==> v1 matches Ok(sv1) && sv1.name == sv.name
                && dfz.spec_defuzz(sv1.cache) == dfz.spec_defuzz(sv.cache))
        }),
{
    lemma_compute_idempotent(rules.rules_view(), vals, reg, logic, sops);
}

} // verus!
