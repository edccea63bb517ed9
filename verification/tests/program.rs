use resin::language::concepts::{CategoricalSource, Clause, ComparisonLiteral, ResinType, Source};
use resin::language::matching::{
    canonical_comparison_name, parameterized_comparison_predicate, COMPARISON_PATTERN,
};
use resin::language::pattern::Pattern;
use resin::language::dnf::Dnf;
use resin::language::resin::{strip_comments, sum_product_from_dnf, Resin, Signal};

fn threshold(text: &str) -> f64 {
    text.parse().unwrap()
}

#[test]
fn test_canonical_comparison_name() {
    // Parentheses become underscores; trailing _ is trimmed before the op segment
    assert_eq!(
        canonical_comparison_name("distance(hospital)", '<', &format!("{}", 20.0)),
        "distance_hospital_lt_20"
    );
    assert_eq!(
        canonical_comparison_name("distance(hospital)", '>', &format!("{}", 55.0)),
        "distance_hospital_gt_55"
    );
    assert_eq!(
        canonical_comparison_name("speed", '<', &format!("{}", 10.5)),
        "speed_lt_10_5"
    );
    assert_eq!(
        canonical_comparison_name("temperature(room_1)", '>', &format!("{}", 22.5)),
        "temperature_room_1_gt_22_5"
    );
}

#[test]
fn test_parameterized_comparison_predicate() {
    assert_eq!(
        parameterized_comparison_predicate("distance", '>', &format!("{}", 100.0)),
        "resin_distance_gt_100"
    );
    assert_eq!(
        parameterized_comparison_predicate("distance", '<', &format!("{}", 20.5)),
        "resin_distance_lt_20_5"
    );
}

#[test]
fn thresholds_as_written_take_their_shortest_form() {
    assert_eq!(canonical_comparison_name("x", '<', "20.0"), "x_lt_20");
    assert_eq!(canonical_comparison_name("x", '<', "+007.50"), "x_lt_7_5");
    assert_eq!(canonical_comparison_name("x", '>', "-3"), "x_gt_-3");
    assert_eq!(canonical_comparison_name("x", '>', "0.0"), "x_gt_0");
    assert_eq!(canonical_comparison_name("x", '>', "-0.0"), "x_gt_-0");
    assert_eq!(canonical_comparison_name("x", '>', "0.25"), "x_gt_0_25");
    // Any operator other than `<` reads as "greater than".
    assert_eq!(parameterized_comparison_predicate("p", '=', "1"), "resin_p_gt_1");
}

#[test]
fn test_comparison_literal_regex() {
    let comparison = Pattern::new(COMPARISON_PATTERN).unwrap();

    let input = "distance(hospital) < 20.0";
    assert_eq!(comparison.capture(input, "comp_atom").unwrap(), "distance(hospital)");
    assert_eq!(comparison.capture(input, "comp_op").unwrap(), "<");
    assert_eq!(comparison.capture(input, "comp_threshold").unwrap(), "20.0");

    let input = "speed > 5";
    assert_eq!(comparison.capture(input, "comp_atom").unwrap(), "speed");
    assert_eq!(comparison.capture(input, "comp_op").unwrap(), ">");
    assert_eq!(comparison.capture(input, "comp_threshold").unwrap(), "5");

    // Both comparisons in a body should be found
    let body = "distance(hospital) < 20.0 and distance(hospital) > 55.0";
    let matches = comparison.find_all(body);
    assert_eq!(matches.len(), 2);
}

#[test]
fn pattern_split_and_capture_all() {
    let comparison = Pattern::new(COMPARISON_PATTERN).unwrap();
    let body = "a and x < 1 and y > 2.5";
    assert_eq!(comparison.split(body), vec!["a and ", " and ", ""]);
    assert_eq!(
        comparison.capture_all(body, "comp_threshold"),
        vec![Some("1".to_string()), Some("2.5".to_string())]
    );
}

#[test]
fn test_clause_with_comparison_literals() {
    // Clause with a single comparison in the body
    let code = "safe if distance(hospital) < 20.0.";
    let clause: Clause = code.parse().unwrap();

    assert_eq!(clause.head, "safe");
    assert_eq!(clause.comparison_literals.len(), 1);
    let comp = &clause.comparison_literals[0];
    assert_eq!(comp.source_atom, "distance(hospital)");
    assert_eq!(comp.op, '<');
    assert_eq!(threshold(&comp.threshold), 20.0);
    assert!(!comp.is_upper_tail());
    // The canonical name should appear in the body literals
    assert!(clause.body.contains(&comp.canonical_name));
}

#[test]
fn test_clause_with_multiple_comparison_literals() {
    // Two comparisons on the same atom — different thresholds and directions
    let code = "safe if distance(hospital) < 20.0 and distance(hospital) > 55.0.";
    let clause: Clause = code.parse().unwrap();

    assert_eq!(clause.comparison_literals.len(), 2);
    let lt_comp = clause.comparison_literals.iter().find(|c| c.op == '<').unwrap();
    let gt_comp = clause.comparison_literals.iter().find(|c| c.op == '>').unwrap();

    assert_eq!(threshold(&lt_comp.threshold), 20.0);
    assert!(!lt_comp.is_upper_tail());
    assert_eq!(threshold(&gt_comp.threshold), 55.0);
    assert!(gt_comp.is_upper_tail());

    // Both canonical names should be in the body
    assert!(clause.body.contains(&lt_comp.canonical_name));
    assert!(clause.body.contains(&gt_comp.canonical_name));
}

#[test]
fn test_clause_mixed_literals() {
    // One regular atom and one comparison literal in the body
    let code = "at_risk if active and distance(hospital) < 5.0.";
    let clause: Clause = code.parse().unwrap();

    assert_eq!(clause.comparison_literals.len(), 1);
    assert_eq!(clause.comparison_literals[0].source_atom, "distance(hospital)");
    // "active" is a regular literal
    assert!(clause.body.contains(&"active".to_string()));
    // Canonical comparison name is also in body
    assert!(clause.body.contains(&clause.comparison_literals[0].canonical_name));
}

#[test]
fn test_variable_comparison_single_var() {
    let code = "safety_distance(T) if critical_infrastructure(T) and distance(T) > 100.";
    let clause: Clause = code.parse().unwrap();

    assert_eq!(clause.comparison_literals.len(), 1);
    let comp = &clause.comparison_literals[0];
    assert!(comp.is_variable);
    assert_eq!(comp.source_atom, "distance(T)");
    assert_eq!(comp.op, '>');
    assert_eq!(threshold(&comp.threshold), 100.0);
    // Body uses the parameterized, groundable form
    assert_eq!(comp.canonical_name, "resin_distance_gt_100(T)");
    assert!(clause.body.contains(&"resin_distance_gt_100(T)".to_string()));
}

#[test]
fn test_variable_comparison_multi_var() {
    let code = "close(A, B) if distance(A, B) < 50.";
    let clause: Clause = code.parse().unwrap();

    let comp = &clause.comparison_literals[0];
    assert!(comp.is_variable);
    assert_eq!(comp.source_atom, "distance(A, B)");
    assert_eq!(comp.canonical_name, "resin_distance_lt_50(A, B)");
    assert!(clause.body.contains(&"resin_distance_lt_50(A, B)".to_string()));
}

#[test]
fn test_ground_comparison_is_not_variable() {
    let code = "safe if distance(hospital) < 20.0.";
    let clause: Clause = code.parse().unwrap();

    let comp = &clause.comparison_literals[0];
    assert!(!comp.is_variable);
    assert_eq!(comp.canonical_name, "distance_hospital_lt_20");
}

#[test]
fn test_ground_for_single_arg() {
    let comp = ComparisonLiteral {
        source_atom: "distance(T)".to_string(),
        op: '>',
        threshold: format!("{}", 100.0),
        canonical_name: "resin_distance_gt_100(T)".to_string(),
        is_variable: true,
    };

    let g = comp.ground_for("distance(hospital)").unwrap();
    assert_eq!(g.source_atom, "distance(hospital)");
    assert_eq!(g.canonical_name, "distance_hospital_gt_100");
    assert!(!g.is_variable);

    // Wrong predicate → None
    assert!(comp.ground_for("speed").is_none());
    // Wrong arity → None
    assert!(comp.ground_for("distance(a, b)").is_none());
}

#[test]
fn test_ground_for_multi_arg() {
    let comp = ComparisonLiteral {
        source_atom: "distance(A, B)".to_string(),
        op: '<',
        threshold: format!("{}", 50.0),
        canonical_name: "resin_distance_lt_50(A, B)".to_string(),
        is_variable: true,
    };

    let g = comp.ground_for("distance(hospital, airport)").unwrap();
    assert_eq!(g.canonical_name, "distance_hospital__airport_lt_50");

    // Wrong arity → None
    assert!(comp.ground_for("distance(hospital)").is_none());
}

#[test]
fn test_ground_for_mixed_constant_arg() {
    // Comparison has a constant in argument position 1 ("hub")
    let comp = ComparisonLiteral {
        source_atom: "distance(A, hub, B)".to_string(),
        op: '>',
        threshold: format!("{}", 100.0),
        canonical_name: "resin_distance_gt_100(A, hub, B)".to_string(),
        is_variable: true,
    };

    // Matching: constant position agrees
    assert!(comp.ground_for("distance(x, hub, y)").is_some());
    // Non-matching: constant position disagrees
    assert!(comp.ground_for("distance(x, other, y)").is_none());
    // Wrong arity → None
    assert!(comp.ground_for("distance(x, y)").is_none());
}

#[test]
fn test_ground_for_returns_none_for_ground_literal() {
    let comp = ComparisonLiteral {
        source_atom: "distance(hospital)".to_string(),
        op: '>',
        threshold: format!("{}", 100.0),
        canonical_name: "distance_hospital_gt_100".to_string(),
        is_variable: false,
    };
    assert!(comp.ground_for("distance(hospital)").is_none());
}

#[test]
fn ground_for_atom_without_arguments() {
    // A bare variable atom grounds to any bare atom of the same predicate.
    let comp = ComparisonLiteral {
        source_atom: "T".to_string(),
        op: '<',
        threshold: "3".to_string(),
        canonical_name: "resin_T_lt_3()".to_string(),
        is_variable: true,
    };
    assert_eq!(comp.ground_for("T").unwrap().canonical_name, "T_lt_3");
    assert!(comp.ground_for("speed").is_none());
}

#[test]
fn test_clauses() {
    let code = "test.";
    let clause: Clause = code.parse().expect("Parse clause failed!");
    assert!(clause.body.is_empty());
    assert_eq!(clause.code, code);
    assert_eq!(clause.head, "test");
    assert!(clause.probability.is_none());

    let code = "pilot(ben).";
    let clause: Clause = code.parse().expect("Parse clause failed!");
    assert!(clause.body.is_empty());
    assert_eq!(clause.code, code);
    assert_eq!(clause.head, "pilot(ben)");
    assert!(clause.probability.is_none());

    let code = "heavy(drone_1) <- P(0.8).";
    let clause: Clause = code.parse().expect("Parse clause failed!");
    assert!(clause.body.is_empty());
    assert_eq!(clause.code, code);
    assert_eq!(clause.head, "heavy(drone_1)");
    assert_eq!(threshold(&clause.probability.unwrap()), 0.8);

    let code =
        "unsafe(drone_1, drone_2) <- P(0.65) if close(drone_1, drone_2) and heavy(drone_1).";
    let clause: Clause = code.parse().expect("Parse clause failed!");
    assert_eq!(clause.code, code);
    assert_eq!(clause.head, "unsafe(drone_1, drone_2)");
    assert_eq!(threshold(&clause.probability.unwrap()), 0.65);
    assert_eq!(clause.body, vec!["close(drone_1, drone_2)", "heavy(drone_1)"]);
}

#[test]
fn clause_rejects_non_clauses_and_renders_asp() {
    assert!("no period here".parse::<Clause>().is_err());

    let fact: Clause = "pilot(ben).".parse().unwrap();
    assert_eq!(fact.to_asp(), "pilot(ben).\n");

    let rule: Clause = "a <- P(0.4) if b and not c(x).".parse().unwrap();
    assert_eq!(rule.to_asp(), "{a} :- b, not c(x).\n");
}

#[test]
fn clause_substitute_replaces_variable() {
    let clause: Clause = "heavy(X) if drone(X).".parse().unwrap();
    let ground = clause.substitute("X".to_string(), "d1".to_string()).unwrap();
    assert_eq!(ground.head, "heavy(d1)");
    assert_eq!(ground.body, vec!["drone(d1)"]);
    // An invalid pattern is refused.
    assert!(clause.substitute("(".to_string(), "d1".to_string()).is_err());
}

#[test]
fn categorical_source_declaration() {
    let source: CategoricalSource =
        r#"{digit1(0), digit1(1), digit1(2)} <- source("/digit1", Categorical)."#.parse().unwrap();
    assert_eq!(source.categories, vec!["digit1(0)", "digit1(1)", "digit1(2)"]);
    assert_eq!(source.channel, "/digit1");
    assert!(r#"x <- source("/x", Categorical)."#.parse::<CategoricalSource>().is_err());
}

#[test]
fn comments_are_stripped_and_lines_joined() {
    assert_eq!(strip_comments("a. # one\n\n  b\r\n  c. # two\n"), "a. b c.");
    assert_eq!(strip_comments(""), "");
    assert_eq!(strip_comments("# only a comment"), "");
}

#[test]
fn test_comment_stripping() {
    // Full-line, inline, and mid-clause comments must all be ignored.
    let model = r#"
        # Full-line comment: declare sources
        active <- source("/active", Boolean). # inline comment
        speed  <- source("/speed", Number).

        # Another full-line comment
        alarm if active        # mid-clause comment
              and speed > 5.   # comment after continuation line
        alarm -> target("/alarm").
    "#;

    let resin: Resin = model.parse().unwrap();

    assert_eq!(resin.sources.len(), 2);
    assert_eq!(resin.targets.len(), 1);
    let alarm = resin.clauses.iter().find(|c| c.head == "alarm").unwrap();
    assert!(alarm.body.contains(&"active".to_string()), "active body literal missing");
    assert!(!alarm.comparison_literals.is_empty(), "speed > 5 comparison missing");
}

#[test]
fn test_no_redundant_choices_for_unreferenced_sources() {
    // Each source type has one referenced and one unreferenced variant.
    // Density/Number: referenced means appearing in a comparison in a clause body.
    // Boolean/Probability: referenced means appearing as a literal in a clause body.
    let model = r#"
        unused_bool <- source("/unused_bool", Boolean).
        active <- source("/active", Boolean).
        unused_prob <- source("/unused_prob", Probability).
        likely <- source("/likely", Probability).
        unused_dist <- source("/unused_dist", Density).
        dist <- source("/dist", Density).
        unused_num <- source("/unused_num", Number).
        speed <- source("/speed", Number).
        alarm if active.
        alarm if likely.
        alarm if dist < 10.0.
        alarm if speed > 5.0.
        alarm -> target("/alarm").
    "#;

    let resin: Resin = model.parse().unwrap();
    let asp = resin.to_asp(0);

    assert!(asp.contains("{active}"), "referenced Boolean source must produce a choice");
    assert!(!asp.contains("{unused_bool}"), "unreferenced Boolean source must not produce a choice");

    assert!(asp.contains("{likely}"), "referenced Probability source must produce a choice");
    assert!(!asp.contains("{unused_prob}"), "unreferenced Probability source must not produce a choice");

    let dist_choice_count = asp.matches("dist").count();
    let unused_dist_choice_count = asp.matches("unused_dist").count();
    assert!(dist_choice_count > 0, "referenced Density source must produce comparison choices");
    assert_eq!(unused_dist_choice_count, 0, "unreferenced Density source must not produce comparison choices");

    let speed_choice_count = asp.matches("speed").count();
    let unused_num_choice_count = asp.matches("unused_num").count();
    assert!(speed_choice_count > 0, "referenced Number source must produce comparison choices");
    assert_eq!(unused_num_choice_count, 0, "unreferenced Number source must not produce comparison choices");
}

#[test]
fn test_probabilistic_clause_uses_aux_atom() {
    // A single probabilistic clause must emit an aux choice atom and a
    // deterministic rule, not the raw `{head} :- body.` form.
    let model = r#"
        close(a, b) <- P(0.8).
        alarm if close(a, b).
        alarm -> target("/alarm").
    "#;

    let resin: Resin = model.parse().unwrap();
    let asp = resin.to_asp(0);

    assert!(asp.contains("{close_a__b_cause_0}"), "aux choice atom missing");
    assert!(asp.contains("close(a, b) :- close_a__b_cause_0"), "aux rule missing");
    assert!(!asp.contains("{close(a, b)}"), "raw head choice must not be emitted");
}

#[test]
fn test_same_head_gets_distinct_aux_atoms() {
    // Two probabilistic clauses for the same head must get distinct cause indices.
    let model = r#"
        risky <- P(0.3).
        risky <- P(0.6).
        risky -> target("/risky").
    "#;

    let resin: Resin = model.parse().unwrap();
    let asp = resin.to_asp(0);

    assert!(asp.contains("{risky_cause_0}"), "first cause atom missing");
    assert!(asp.contains("{risky_cause_1}"), "second cause atom missing");
    assert!(!asp.contains("{risky_cause_2}"), "spurious third cause atom present");
}

#[test]
fn test_variable_comparison_generates_correct_asp() {
    let model = r#"
        distance(hospital) <- source("/distance/hospital", Density).
        distance(airport)  <- source("/distance/airport", Density).
        critical_infrastructure(hospital).
        critical_infrastructure(airport).
        safety_distance(T) if critical_infrastructure(T) and distance(T) > 100.
        safe if safety_distance(hospital) and safety_distance(airport).
        safe -> target("/safety").
    "#;

    let resin: Resin = model.parse().unwrap();
    let asp = resin.to_asp(0);

    // One ground choice atom per source instance
    assert!(asp.contains("{distance_hospital_gt_100}"), "missing hospital choice");
    assert!(asp.contains("{distance_airport_gt_100}"), "missing airport choice");

    // Helper rules that let the solver ground the parameterized predicate
    assert!(
        asp.contains("resin_distance_gt_100(hospital) :- distance_hospital_gt_100."),
        "missing hospital helper rule"
    );
    assert!(
        asp.contains("resin_distance_gt_100(airport) :- distance_airport_gt_100."),
        "missing airport helper rule"
    );

    // The clause body uses the parameterized, groundable form
    assert!(asp.contains("resin_distance_gt_100(T)"), "missing parameterized atom in rule body");

    // The flat variable-templated atom must NOT appear
    assert!(!asp.contains("{distance_T_gt_100}"), "spurious variable-template choice emitted");
}

#[test]
fn whole_asp_program_for_a_small_model() {
    let model = r#"
        {dog, cat} <- source("/cls", Categorical).
        near <- source("/near", Boolean).
        dist <- source("/dist", Density).
        coin(c0).
        heads(C) <- P(0.6) if coin(C) and near.
        risky <- P(0.3).
        alarm if dog and dist < 2.0 and heads(c0).
        alarm if dist < 2.0.
        alarm -> target("/alarm").
    "#;
    let resin: Resin = model.parse().unwrap();
    assert_eq!(resin.categorical_sources.len(), 1);
    assert_eq!(resin.sources[1].message_type, ResinType::Density);
    assert_eq!(
        resin.to_asp(0),
        [
            "{near}.\n",
            "{dist_lt_2}.\n",
            "1 { dog ; cat } 1.\n",
            "coin(c0).\n",
            "{heads_cause_0(C)} :- coin(C).\n",
            "heads(C) :- heads_cause_0(C), coin(C), near.\n",
            "{risky_cause_0}.\n",
            "risky :- risky_cause_0.\n",
            "alarm :- dog, dist_lt_2, heads(c0).\n",
            "alarm :- dist_lt_2.\n",
            ":- not alarm.\n",
        ]
        .join("")
    );
    let comparisons = resin.collect_comparisons_for("dist");
    assert_eq!(comparisons.len(), 1);
    assert_eq!(comparisons[0].canonical_name, "dist_lt_2");
}

fn describe(signal: &Signal) -> String {
    match signal {
        Signal::Pair { name, channel } => format!("pair {} {}", name, channel),
        Signal::Comparison { source, comparison } => {
            format!("comparison {} {} {}", source, comparison.canonical_name, comparison.is_upper_tail())
        }
        Signal::Categories { categories, channel } => format!("categories {} {}", categories.join(","), channel),
        Signal::Cause { name, probability, group } => format!("cause {} {} {}", name, probability, group),
    }
}

#[test]
fn signal_plan_lists_leaves_in_creation_order() {
    let model = r#"
        distance(hospital) <- source("/distance/hospital", Density).
        active <- source("/active", Boolean).
        {dog, cat} <- source("/cls", Categorical).
        safe if distance(hospital) < 20.0.
        safe if distance(hospital) > 55.0 and active.
        safe if distance(hospital) < 20.0.
        risky <- P(0.3).
        risky <- P(0.6).
        heads(C) <- P(0.5) if coin(C).
        safe -> target("/safety").
    "#;
    let resin: Resin = model.parse().unwrap();
    let plan: Vec<String> = resin.signal_plan().iter().map(describe).collect();
    assert_eq!(
        plan,
        vec![
            "comparison distance(hospital) distance_hospital_lt_20 false",
            "comparison distance(hospital) distance_hospital_gt_55 true",
            "pair active /active",
            "categories dog,cat /cls",
            "cause risky_cause_0 0.3 risky#0",
            "cause risky_cause_1 0.6 risky#1",
        ]
    );
}

#[test]
fn fol_causes_follow_the_solved_formula() {
    let model = r#"
        coin(c0).
        coin(c1).
        heads(C) <- P(0.6) if coin(C).
        any_heads if heads(C).
        any_heads -> target("/any_heads").
    "#;
    let resin: Resin = model.parse().unwrap();
    let mut dnf = Dnf::new();
    dnf.add_clause(vec!["heads_cause_0(c0)".to_string(), "-heads_cause_0(c1)".to_string(), "coin(c0)".to_string()]);
    dnf.add_clause(vec!["-heads_cause_0(c0)".to_string(), "heads_cause_0(c1)".to_string()]);
    let causes: Vec<String> = resin.fol_cause_signals(&dnf).iter().map(describe).collect();
    assert_eq!(
        causes,
        vec!["cause heads_cause_0(c0) 0.6 heads#0", "cause heads_cause_0(c1) 0.6 heads#0"]
    );
}

#[test]
fn sum_product_skips_derived_atoms() {
    let names: Vec<String> = vec!["a", "-a", "b", "a"].into_iter().map(String::from).collect();
    let mut dnf = Dnf::new();
    dnf.add_clause(vec!["a".to_string(), "derived".to_string(), "b".to_string()]);
    dnf.add_clause(vec!["-a".to_string()]);
    dnf.add_clause(vec![]);
    // A name that occurs twice maps to its last leaf.
    assert_eq!(sum_product_from_dnf(&dnf, &names), vec![vec![3, 2], vec![1], vec![]]);
}

#[test]
fn source_leaf_names_by_atom_or_channel() {
    let model = r#"
        speed <- source("/speed", Number).
        active <- source("/active", Boolean).
        {dog, cat} <- source("/cls", Categorical).
        alarm if active and speed < 25 and speed > 50.
        alarm -> target("/alarm").
    "#;
    let resin: Resin = model.parse().unwrap();
    assert_eq!(resin.source_leaf_names("speed"), vec!["speed_lt_25", "speed_gt_50"]);
    assert_eq!(resin.source_leaf_names("/speed"), vec!["speed_lt_25", "speed_gt_50"]);
    assert_eq!(resin.source_leaf_names("/active"), vec!["active"]);
    assert_eq!(resin.source_leaf_names("/cls"), vec!["dog", "cat"]);
    assert!(resin.source_leaf_names("nothing").is_empty());
}

#[test]
fn test_signal_leaf_names() {
    let pair = Signal::Pair { name: "rain".to_string(), channel: "/rain".to_string() };
    assert_eq!(pair.leaf_names(), vec!["rain".to_string(), "-rain".to_string()]);
    let cause = Signal::Cause {
        name: "c0".to_string(),
        probability: "0.3".to_string(),
        group: "g".to_string(),
    };
    assert_eq!(cause.leaf_names(), vec!["c0".to_string(), "-c0".to_string()]);
    let categories = Signal::Categories {
        categories: vec!["red".to_string(), "green".to_string()],
        channel: "/color".to_string(),
    };
    assert_eq!(categories.leaf_names(), vec!["red".to_string(), "green".to_string()]);
}

#[test]
fn test_program_readiness() {
    let model = r#"
        active <- source("/active", Boolean).
        alarm if active.
        alarm -> target("/alarm").
    "#;
    let resin: Resin = model.parse().unwrap();
    assert!(resin.is_asp_ready());
    assert!(resin.is_signals_ready());
    assert_eq!(resin.checked_asp(0), Some(resin.to_asp(0)));
    assert_eq!(resin.checked_signal_plan().map(|plan| plan.len()), Some(resin.signal_plan().len()));

    // looking for a reference to source x(a) meets the literal x( first,
    // whose argument list cannot be taken apart: no ASP, but signals
    let mut unsliceable = resin;
    unsliceable.sources.push(Source {
        name: "x(a)".to_string(),
        channel: "/x".to_string(),
        message_type: ResinType::Boolean,
    });
    unsliceable.clauses.insert(0, Clause {
        head: "alarm".to_string(),
        probability: None,
        body: vec!["x(".to_string()],
        comparison_literals: vec![],
        code: "alarm if x(.".to_string(),
    });
    assert!(!unsliceable.is_asp_ready());
    assert_eq!(unsliceable.checked_asp(0), None);
    assert!(unsliceable.is_signals_ready());
    assert!(unsliceable.checked_signal_plan().is_some());

    // a categorical source among the plain ones: no signal plan
    let mut categorical = unsliceable;
    categorical.sources.push(Source {
        name: "color".to_string(),
        channel: "/color".to_string(),
        message_type: ResinType::Categorical,
    });
    assert!(!categorical.is_signals_ready());
    assert!(categorical.checked_signal_plan().is_none());
}
