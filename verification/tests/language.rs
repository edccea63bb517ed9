use resin::language::asp::model_clause;
use resin::language::concepts::{ResinType, Source, Target};
use resin::language::dnf::Dnf;
use resin::language::matching::{
    args_of, cause_atom_base_name, cause_atom_name, get_literals, has_variable_arg, predicate_of,
    split_statements, CLAUSE_PATTERN, LITERAL_PATTERN,
};
use resin::language::pattern::Pattern;

#[test]
fn test_get_literals_and_keyword() {
    // "and" as a conjunction keyword must be stripped.
    assert_eq!(get_literals("foo and bar").unwrap(), vec!["foo", "bar"]);
    // "and" inside an atom name must NOT be stripped.
    assert_eq!(get_literals("random and command").unwrap(), vec!["random", "command"]);
    assert_eq!(get_literals("sand_check").unwrap(), vec!["sand_check"]);
    // Body mixing embedded-"and" atom with the keyword.
    assert_eq!(
        get_literals("random and safety_distance(T)").unwrap(),
        vec!["random", "safety_distance(T)"]
    );
}

#[test]
fn test_literal() {
    let literal_regex = Pattern::new(LITERAL_PATTERN).unwrap();

    let input = "test";
    let Some(captured) = literal_regex.capture(input, "literal") else {
        panic!()
    };
    assert_eq!(captured, input);

    let input = "test(a)";
    let Some(captured) = literal_regex.capture(input, "literal") else {
        panic!()
    };
    assert_eq!(captured, input);

    let input = "test(a, b)";
    let Some(captured) = literal_regex.capture(input, "literal") else {
        panic!()
    };
    assert_eq!(captured, input);

    let input = "not test(a_1, b, c)";
    let Some(captured) = literal_regex.capture(input, "literal") else {
        panic!()
    };
    assert_eq!(captured, input);
}

#[test]
fn test_body() {
    let clause_regex = Pattern::new(CLAUSE_PATTERN).unwrap();

    let input = "a if test.";
    let Some(body) = clause_regex.capture(input, "body") else {
        panic!()
    };
    assert_eq!(body, "test");

    let input = "a if test and other.";
    let Some(body) = clause_regex.capture(input, "body") else {
        panic!()
    };
    assert_eq!(body, "test and other");

    let input = "a(X, Y) if test and other.";
    let Some(body) = clause_regex.capture(input, "body") else {
        panic!()
    };
    assert_eq!(body, "test and other");

    let input = "a_b(X, some_thing) <- P(0.4) if test(X) and other(some_thing, C).";
    let Some(atom) = clause_regex.capture(input, "atom") else {
        panic!()
    };
    let Some(body) = clause_regex.capture(input, "body") else {
        panic!()
    };
    assert_eq!(atom, "a_b(X, some_thing)");
    assert_eq!(body, "test(X) and other(some_thing, C)");
    assert_eq!(get_literals(&body).unwrap(), vec!["test(X)", "other(some_thing, C)"]);
}

#[test]
fn test_cause_atom_name() {
    assert_eq!(cause_atom_name("close(a, b)", 0), "close_a__b_cause_0");
    assert_eq!(cause_atom_name("risky", 0), "risky_cause_0");
    assert_eq!(cause_atom_name("risky", 1), "risky_cause_1");
    assert_eq!(cause_atom_name("unsafe(drone_1)", 2), "unsafe_drone_1_cause_2");
}

#[test]
fn test_has_variable_arg() {
    assert!(has_variable_arg("distance(T)"));
    assert!(has_variable_arg("distance(A, B)"));
    assert!(has_variable_arg("distance(A, hub, B)")); // mixed constant/variable
    assert!(!has_variable_arg("distance(hospital)"));
    assert!(!has_variable_arg("distance(hospital, airport)"));
    assert!(!has_variable_arg("speed")); // bare atom, lowercase
    assert!(has_variable_arg("T")); // bare variable
}

#[test]
fn test_args_of() {
    assert_eq!(args_of("distance(hospital)"), Some(vec!["hospital"]));
    assert_eq!(args_of("distance(hospital, airport)"), Some(vec!["hospital", "airport"]));
    assert_eq!(args_of("distance(A, hub, B)"), Some(vec!["A", "hub", "B"]));
    assert_eq!(args_of("speed"), None);
}

#[test]
fn test_predicate_of() {
    assert_eq!(predicate_of("distance(hospital)"), "distance");
    assert_eq!(predicate_of("distance(A, B)"), "distance");
    assert_eq!(predicate_of("speed"), "speed");
}

#[test]
fn test_resin_type_parsing() {
    assert!(matches!("Probability".parse::<ResinType>().unwrap(), ResinType::Probability));
    assert!(matches!("Density".parse::<ResinType>().unwrap(), ResinType::Density));
    assert!(matches!("Number".parse::<ResinType>().unwrap(), ResinType::Number));
    assert!(matches!("Boolean".parse::<ResinType>().unwrap(), ResinType::Boolean));
    assert!("Unknown".parse::<ResinType>().is_err());
}

#[test]
fn test_source_with_boolean_type() {
    let code = r#"active <- source("/active", Boolean)."#;
    let source: Source = code.parse().unwrap();
    assert_eq!(source.name, "active");
    assert_eq!(source.channel, "/active");
    assert!(matches!(source.message_type, ResinType::Boolean));
}

#[test]
fn test_source_with_density_type() {
    let code = r#"distance(hospital) <- source("/distance/hospital", Density)."#;
    let source: Source = code.parse().unwrap();
    assert_eq!(source.name, "distance(hospital)");
    assert!(matches!(source.message_type, ResinType::Density));
}

#[test]
fn categorical_type_name_and_bad_source() {
    assert_eq!(ResinType::from_name("Categorical"), Ok(ResinType::Categorical));
    assert!("x <- source(\"/x\", Categorical).".parse::<Source>().is_err());
    assert!("not a source".parse::<Source>().is_err());
}

#[test]
fn source_and_target_asp() {
    let source: Source = r#"over(park) <- source("/map/over/park", Probability)."#.parse().unwrap();
    assert_eq!(source.channel, "/map/over/park");
    assert_eq!(source.to_asp(), "{over(park)}.\n");
    let target: Target = r#"safe -> target("/safety")."#.parse().unwrap();
    assert_eq!(target.name, "safe");
    assert_eq!(target.channel, "/safety");
    assert!(matches!(target.message_type, ResinType::Probability));
    assert_eq!(target.to_asp(), ":- not safe.\n");
    assert!("safe -> target(safety).".parse::<Target>().is_err());
}

#[test]
fn split_statements_keeps_decimals() {
    let program = "a <- P(0.9).  b if a and speed < 20.5. c.\n  trailing";
    assert_eq!(split_statements(program), vec!["a <- P(0.9).", "b if a and speed < 20.5.", "c."]);
    assert_eq!(split_statements(""), Vec::<String>::new());
    assert_eq!(split_statements(" . x."), vec![".", "x."]);
}

#[test]
fn cause_atom_base_name_uses_predicate() {
    assert_eq!(cause_atom_base_name("heads(C)", 0), "heads_cause_0");
    assert_eq!(cause_atom_base_name("risky", 12), "risky_cause_12");
    assert_eq!(cause_atom_name("__x y__", 3), "x_y_cause_3");
}

#[test]
fn args_of_trims_and_keeps_empty_pieces() {
    assert_eq!(args_of("f( a ,b,)"), Some(vec!["a", "b", ""]));
    assert_eq!(args_of("f()"), Some(vec![""]));
    assert_eq!(args_of("f(a"), None);
}

#[test]
fn dnf_literals() {
    assert!(Dnf::is_negated("-safe"));
    assert!(!Dnf::is_negated("safe"));
    assert!(!Dnf::is_negated(""));
    assert_eq!(Dnf::negate("safe"), "-safe");
    assert_eq!(Dnf::negate("-safe"), "safe");
    assert_eq!(Dnf::negate(&Dnf::negate("close(a, b)")), "close(a, b)");
    assert_eq!(Dnf::get_variable("-close(a, b)"), "close(a, b)");
    assert_eq!(Dnf::get_variable("close(a, b)"), "close(a, b)");
}

#[test]
fn dnf_remove_strips_both_polarities() {
    let mut dnf = Dnf::new();
    dnf.add_clause(vec!["a".to_string(), "-t".to_string(), "b".to_string()]);
    dnf.add_clause(vec!["t".to_string()]);
    dnf.add_clause(vec!["-a".to_string(), "tt".to_string()]);
    dnf.remove("t");
    assert_eq!(
        dnf.clauses,
        vec![vec!["a".to_string(), "b".to_string()], vec![], vec!["-a".to_string(), "tt".to_string()]]
    );
}

#[test]
fn model_clause_negates_complement() {
    let clause = model_clause(
        vec!["motive(harry)".to_string(), "guilty(harry)".to_string()],
        &vec!["innocent(harry)".to_string()],
    );
    assert_eq!(clause, vec!["motive(harry)", "guilty(harry)", "-innocent(harry)"]);
}

#[test]
fn pattern_replace_and_find() {
    let p = Pattern::new(r"\band\b").unwrap();
    assert_eq!(p.source(), r"\band\b");
    assert_eq!(p.replace_all("x and band and y", " "), "x   band   y");
    assert_eq!(p.find_all("and sand and"), vec!["and", "and"]);
    assert!(Pattern::new("(").is_none());
}
