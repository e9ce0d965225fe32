use fuzzy_logic::UNIT;
use fuzzy_logic::KEY_LIMIT;
use fuzzy_logic::errors::{ConfigIssue, FuzzyError};
use fuzzy_logic::functions::{DefuzzFactory, MembershipFactory};
use fuzzy_logic::inference::{InferenceMachine, InferenceOptions};
use fuzzy_logic::ops::{DefuzzFunc, LogicOps, MaxUnionOps, MinMaxOps, SetOps};
use fuzzy_logic::rules::{Expr, Is, Rule, RuleSet};
use fuzzy_logic::set::{FuzzySet, UniversalSet};

fn options() -> InferenceOptions<MinMaxOps, MaxUnionOps, fuzzy_logic::ops::CenterOfMass> {
    InferenceOptions {
        logic_ops: MinMaxOps,
        set_ops: MaxUnionOps,
        defuzz_func: DefuzzFactory::center_of_mass(),
    }
}

#[test]
fn initial() {
    let mem = MembershipFactory::triangular(-15_000_000, -15_000_000, 22_000_000);
    let set = FuzzySet::new_with_mem("Test".to_string(), mem);
    assert_eq!(set.entry_count(), 0);
    assert!(set.membership().is_some());
    let empty = FuzzySet::new_empty();
    assert_eq!(empty.name(), "Empty");
    assert_eq!(empty.entry_count(), 0);
    assert!(empty.membership().is_none());
}

#[test]
fn triangular_peak_is_full_degree() {
    let mem = MembershipFactory::triangular(-15_000_000, -15_000_000, 22_000_000);
    assert_eq!(mem.grade(-15_000_000), UNIT);
    let sym = MembershipFactory::triangular(0, 10_000_000, 20_000_000);
    assert_eq!(sym.grade(10_000_000), UNIT);
    assert_eq!(sym.grade(5_000_000), UNIT / 2);
    assert_eq!(sym.grade(25_000_000), 0);
}

#[test]
fn trapezoidal_values() {
    let mem = MembershipFactory::trapezoidal(0, 10, 20, 40);
    assert_eq!(mem.grade(-1), 0);
    assert_eq!(mem.grade(5), UNIT / 2);
    assert_eq!(mem.grade(15), UNIT);
    assert_eq!(mem.grade(30), UNIT / 2);
    assert_eq!(mem.grade(41), 0);
}

#[test]
fn check_twice_caches_once() {
    let mem = MembershipFactory::triangular(0, 10, 20);
    let mut set = FuzzySet::new_with_mem("tri".to_string(), mem);
    let first = set.check(5).unwrap();
    let second = set.check(5).unwrap();
    assert_eq!(first, second);
    assert_eq!(first, UNIT / 2);
    assert_eq!(set.entry_count(), 1);
    assert_eq!(set.lookup(5), Some(UNIT / 2));
}

#[test]
fn check_zero_degree_not_retained() {
    let mem = MembershipFactory::triangular(0, 10, 20);
    let mut set = FuzzySet::new_with_mem("tri".to_string(), mem);
    assert_eq!(set.check(30).unwrap(), 0);
    assert_eq!(set.check(30).unwrap(), 0);
    assert_eq!(set.entry_count(), 0);
}

#[test]
fn check_rejects_out_of_range_key() {
    let mem = MembershipFactory::triangular(0, 10, 20);
    let mut set = FuzzySet::new_with_mem("tri".to_string(), mem);
    assert_eq!(set.check(KEY_LIMIT + 1), Err(FuzzyError::InvalidDomainValue));
    assert_eq!(set.check(-KEY_LIMIT - 1), Err(FuzzyError::InvalidDomainValue));
}

#[test]
fn check_rejects_snapshot_set() {
    let mut set = FuzzySet::new_empty();
    assert_eq!(set.check(0), Err(FuzzyError::InvalidMembershipUse));
}

#[test]
fn universe_first_registration_wins() {
    let mut uni = UniversalSet::new("temp".to_string());
    uni.create_set("cold".to_string(), MembershipFactory::triangular(0, 0, 10));
    uni.create_set("cold".to_string(), MembershipFactory::triangular(5, 5, 9));
    assert_eq!(uni.set_count(), 1);
    let pairs = uni.memberships(0).unwrap();
    assert_eq!(pairs.len(), 1);
    assert_eq!(pairs[0].0, "cold");
    assert_eq!(pairs[0].1, UNIT);
}

#[test]
fn memberships_reports_every_set() {
    let mut uni = UniversalSet::new("temp".to_string());
    uni.create_set("cold".to_string(), MembershipFactory::triangular(0, 0, 10));
    uni.create_set("hot".to_string(), MembershipFactory::triangular(0, 10, 10));
    let pairs = uni.memberships(5).unwrap();
    assert_eq!(pairs.len(), 2);
    assert_eq!(pairs[0], ("cold".to_string(), UNIT / 2));
    assert_eq!(pairs[1], ("hot".to_string(), UNIT / 2));
}

#[test]
fn empty_rule_list_is_rejected() {
    let err = RuleSet::new(Vec::new()).err().unwrap();
    assert_eq!(err, FuzzyError::ConfigurationError(ConfigIssue::EmptyRules));
}

#[test]
fn mixed_universes_are_rejected_naming_both() {
    let r1 = Rule::new(
        Expr::is("temp".to_string(), "cold".to_string()),
        "action".to_string(),
        "low".to_string(),
    );
    let r2 = Rule::new(
        Expr::is("temp".to_string(), "hot".to_string()),
        "power".to_string(),
        "high".to_string(),
    );
    let err = RuleSet::new(vec![r1, r2]).err().unwrap();
    assert_eq!(
        err,
        FuzzyError::ConfigurationError(ConfigIssue::MixedUniverses {
            first: "action".to_string(),
            other: "power".to_string(),
        })
    );
}

#[test]
fn same_universe_rules_are_accepted() {
    let r1 = Rule::new(
        Expr::is("temp".to_string(), "cold".to_string()),
        "action".to_string(),
        "low".to_string(),
    );
    let r2 = Rule::new(
        Expr::is("temp".to_string(), "hot".to_string()),
        "action".to_string(),
        "high".to_string(),
    );
    let rs = RuleSet::new(vec![r1, r2]).unwrap();
    assert_eq!(rs.rule_count(), 2);
    let single = RuleSet::new(vec![Rule::new(
        Expr::is("temp".to_string(), "cold".to_string()),
        "action".to_string(),
        "low".to_string(),
    )]);
    assert!(single.is_ok());
}

#[test]
fn min_max_logic_table() {
    let ops = MinMaxOps;
    assert_eq!(ops.and(200_000, 700_000), 200_000);
    assert_eq!(ops.or(200_000, 700_000), 700_000);
    assert_eq!(ops.not(200_000), 800_000);
    assert_eq!(ops.not(UNIT), 0);
}

#[test]
fn union_takes_pointwise_max_either_way() {
    let a = FuzzySet::new_with_domain(
        "a".to_string(),
        vec![(1, 300_000), (2, 900_000), (5, 100_000)],
    );
    let b = FuzzySet::new_with_domain("b".to_string(), vec![(2, 400_000), (3, 250_000)]);
    let ops = MaxUnionOps;
    let ab = ops.union(&a, &b);
    let ba = ops.union(&b, &a);
    for key in [1, 2, 3, 5] {
        assert_eq!(ab.lookup(key), ba.lookup(key));
    }
    assert_eq!(ab.entry_count(), ba.entry_count());
    assert_eq!(ab.lookup(1), Some(300_000));
    assert_eq!(ab.lookup(2), Some(900_000));
    assert_eq!(ab.lookup(3), Some(250_000));
    assert_eq!(ab.lookup(5), Some(100_000));
    assert_eq!(ab.name(), "a");
    assert_eq!(ba.name(), "b");
}

#[test]
fn center_of_mass_weighted_average() {
    let set = FuzzySet::new_with_domain(
        "out".to_string(),
        vec![(10, 500_000), (30, 500_000)],
    );
    let df = DefuzzFactory::center_of_mass();
    assert_eq!(df.defuzz(&set), 20);
    let empty = FuzzySet::new_empty();
    assert_eq!(df.defuzz(&empty), 0);
    let negative = FuzzySet::new_with_domain("neg".to_string(), vec![(-40, 250_000)]);
    assert_eq!(df.defuzz(&negative), -40);
}

#[test]
fn unknown_variable_universe_and_set() {
    let rule = Rule::new(
        Expr::is("temp".to_string(), "cold".to_string()),
        "action".to_string(),
        "low".to_string(),
    );
    let rules = RuleSet::new(vec![rule]).unwrap();
    let mut machine = InferenceMachine::new(rules, Vec::new(), options());
    assert_eq!(
        machine.compute(),
        Err(FuzzyError::UnknownVariable("temp".to_string()))
    );

    machine.update(&vec![("temp".to_string(), 5)]);
    assert_eq!(
        machine.compute(),
        Err(FuzzyError::UnknownUniverse("temp".to_string()))
    );

    let rule = Rule::new(
        Expr::is("temp".to_string(), "cold".to_string()),
        "action".to_string(),
        "low".to_string(),
    );
    let rules = RuleSet::new(vec![rule]).unwrap();
    let uni = UniversalSet::new("temp".to_string());
    let mut machine = InferenceMachine::new(rules, vec![uni], options());
    machine.update(&vec![("temp".to_string(), 5)]);
    assert_eq!(
        machine.compute(),
        Err(FuzzyError::UnknownSet("cold".to_string()))
    );
}

fn cooling_machine() -> InferenceMachine<MinMaxOps, MaxUnionOps, fuzzy_logic::ops::CenterOfMass> {
    let mut temp = UniversalSet::new("temp".to_string());
    temp.set_domain(vec![-20_000_000, 0, 10_000_000, 40_000_000]);
    temp.create_set(
        "cold".to_string(),
        MembershipFactory::triangular(-20_000_000, -20_000_000, 10_000_000),
    );
    temp.create_set(
        "hot".to_string(),
        MembershipFactory::triangular(10_000_000, 40_000_000, 40_000_000),
    );

    let mut action = UniversalSet::new("action".to_string());
    action.set_domain(vec![0, 10_000_000, 20_000_000, 30_000_000, 40_000_000, 50_000_000]);
    action.create_set(
        "low".to_string(),
        MembershipFactory::triangular(0, 0, 50_000_000),
    );
    for x in [0, 10_000_000, 20_000_000, 30_000_000, 40_000_000, 50_000_000] {
        action.memberships(x).unwrap();
    }

    let rule = Rule::new(
        Expr::is("temp".to_string(), "cold".to_string()),
        "action".to_string(),
        "low".to_string(),
    );
    let rules = RuleSet::new(vec![rule]).unwrap();
    InferenceMachine::new(rules, vec![temp, action], options())
}

#[test]
fn cold_input_drives_low_action() {
    let mut machine = cooling_machine();
    machine.update(&vec![("temp".to_string(), -15_000_000)]);
    let (label, crisp) = machine.compute().unwrap();
    assert_eq!(label, "action: low");
    assert!(crisp >= 0);
    assert!(crisp <= 50_000_000);
    assert_eq!(crisp, 20_000_000);
}

#[test]
fn compute_is_idempotent_for_unchanged_inputs() {
    let mut machine = cooling_machine();
    machine.update(&vec![("temp".to_string(), -15_000_000)]);
    let first = machine.compute().unwrap();
    let second = machine.compute().unwrap();
    assert_eq!(first, second);
    let third = machine.compute().unwrap();
    assert_eq!(first, third);
}

#[test]
fn rule_filter_drops_entries_above_strength() {
    let mut machine = cooling_machine();
    machine.update(&vec![("temp".to_string(), -15_000_000)]);
    let (_, crisp) = machine.compute().unwrap();
    // strength of "cold" at -15 is 25/30 of UNIT; the full-degree entry at
    // key 0 is dropped, so the average moves right of the cache's center.
    assert_eq!(crisp, 20_000_000);

    let mut colder = cooling_machine();
    colder.update(&vec![("temp".to_string(), -20_000_000)]);
    let (_, at_peak) = colder.compute().unwrap();
    // strength 1 keeps every cached entry, key 0 included.
    assert_eq!(at_peak, 13_333_333);
}

#[test]
fn and_or_not_expressions_combine_degrees() {
    let mut machine = cooling_machine();
    let cold = || Expr::is("temp".to_string(), "cold".to_string());
    let hot = || Expr::is("temp".to_string(), "hot".to_string());
    let both = Expr::and(cold(), hot());
    let either = Expr::or(cold(), hot());
    let not_cold = Expr::negate(cold());
    machine.update(&vec![("temp".to_string(), 4_000_000)]);
    let values = vec![("temp".to_string(), 4_000_000)];
    let logic = MinMaxOps;
    let cold_deg = cold().eval(&values, &mut machine.universes, &logic).unwrap();
    let hot_deg = hot().eval(&values, &mut machine.universes, &logic).unwrap();
    assert_eq!(cold_deg, 200_000);
    assert_eq!(hot_deg, 0);
    assert_eq!(both.eval(&values, &mut machine.universes, &logic).unwrap(), 0);
    assert_eq!(
        either.eval(&values, &mut machine.universes, &logic).unwrap(),
        200_000
    );
    assert_eq!(
        not_cold.eval(&values, &mut machine.universes, &logic).unwrap(),
        800_000
    );
}

#[test]
fn is_node_keeps_its_names() {
    let node = Is::new("temp".to_string(), "cold".to_string());
    assert_eq!(node.variable, "temp");
    assert_eq!(node.set, "cold");
}

#[test]
fn render_describes_rules() {
    let e = Expr::and(
        Expr::is("temp".to_string(), "cold".to_string()),
        Expr::negate(Expr::is("temp".to_string(), "hot".to_string())),
    );
    assert_eq!(e.render(), "(and (is temp cold) (not (is temp hot)))");
    let rule = Rule::new(
        Expr::is("temp".to_string(), "cold".to_string()),
        "action".to_string(),
        "low".to_string(),
    );
    assert_eq!(rule.render(), "(Rule action:low if:(is temp cold))");
    let rules = RuleSet::new(vec![Rule::new(
        Expr::is("temp".to_string(), "cold".to_string()),
        "action".to_string(),
        "low".to_string(),
    )])
    .unwrap();
    assert_eq!(
        rules.render(),
        "(RuleSet\n\t(Rule action:low if:(is temp cold))\n)"
    );
}

#[test]
fn union_fold_order_does_not_matter() {
    let r1 = FuzzySet::new_with_domain("acc".to_string(), vec![(1, 100_000), (2, 500_000)]);
    let r2 = FuzzySet::new_with_domain("acc".to_string(), vec![(2, 300_000), (4, 900_000)]);
    let r3 = FuzzySet::new_with_domain("acc".to_string(), vec![(1, 700_000), (4, 200_000)]);
    let ops = MaxUnionOps;
    let in_order = ops.union(&ops.union(&r1, &r2), &r3);
    let swapped = ops.union(&ops.union(&r1, &r3), &r2);
    let reversed = ops.union(&ops.union(&r3, &r2), &r1);
    for key in [1, 2, 4] {
        assert_eq!(in_order.lookup(key), swapped.lookup(key));
        assert_eq!(in_order.lookup(key), reversed.lookup(key));
    }
    assert_eq!(in_order.lookup(1), Some(700_000));
    assert_eq!(in_order.lookup(2), Some(500_000));
    assert_eq!(in_order.lookup(4), Some(900_000));
    assert_eq!(in_order.entry_count(), 3);
    assert_eq!(reversed.entry_count(), 3);
}

#[test]
fn out_of_range_input_fails_the_cycle() {
    let mut machine = cooling_machine();
    machine.update(&vec![("temp".to_string(), KEY_LIMIT + 1)]);
    assert_eq!(machine.compute(), Err(FuzzyError::InvalidDomainValue));
}

#[test]
fn memberships_rejects_out_of_range_sample() {
    let mut uni = UniversalSet::new("temp".to_string());
    uni.create_set("cold".to_string(), MembershipFactory::triangular(0, 0, 10));
    assert_eq!(
        uni.memberships(KEY_LIMIT + 1),
        Err(FuzzyError::InvalidDomainValue)
    );
}
