use resolution::{Clause, ClauseGraph, Literal, display_clauses, parse_input, try_parse_input};

fn lit(name: &str, negated: bool) -> Literal {
    Literal::new(String::from(name), negated)
}

#[test]
fn unsatisfiable_pair_is_refuted_in_one_step() {
    let graph = ClauseGraph::new("{p}, {¬p}").unwrap();
    let solution = graph.get_solution();
    let expected = "<div class='result-line'>The quickest way to get the empty set is to do these 1 steps:</div><div class='result-line'>Resolve {p} and {¬p} on literal <span class='literal'>p</span> to obtain {}</div><div class='result-line'>&nbsp;</div>";
    assert_eq!(solution, expected);
}

#[test]
fn unsatisfiable_pair_closure_listing() {
    let graph = ClauseGraph::new("{p}, {¬p}").unwrap();
    assert_eq!(graph.get_resolvents(), "Given: {p}, {¬p}\nIteration 1: {}\n");
}

#[test]
fn satisfiable_single_clause_adds_no_generation() {
    let graph = ClauseGraph::new("{p, q}").unwrap();
    assert_eq!(graph.get_resolvents(), "Given: {p, q}\n");
    let solution = graph.get_solution();
    let expected = "<div class='result-line'>The formula is satisfiable! Take these steps to get all possible clauses:</div><div class='result-line'>&nbsp;</div><div class='result-line'>At the end you should get these 1 clauses:</div><div class='result-line'>Given: {p, q}</div><div class='result-line'>&nbsp;</div>";
    assert_eq!(solution, expected);
}

#[test]
fn two_independent_refutations_are_both_reported() {
    let graph = ClauseGraph::new("{p}, {¬p}, {q}, {¬q}").unwrap();
    let solution = graph.get_solution();
    assert!(solution.contains("There are 2 ways to get the empty set, all taking 1 steps:"));
    assert!(solution.contains("Option 1:"));
    assert!(solution.contains("Option 2:"));
    assert!(solution.contains(
        "Resolve {p} and {¬p} on literal <span class='literal'>p</span> to obtain {}"
    ));
    assert!(solution.contains(
        "Resolve {q} and {¬q} on literal <span class='literal'>q</span> to obtain {}"
    ));
}

#[test]
fn minimal_refutation_takes_two_steps() {
    let graph = ClauseGraph::new("{p, q}, {¬p}, {¬q}").unwrap();
    let solution = graph.get_solution();
    assert!(solution.contains("all taking 2 steps:"));
    assert!(solution.contains(
        "Resolve {p, q} and {¬q} on literal <span class='literal'>q</span> to obtain {p}"
    ));
    assert!(solution.contains(
        "Resolve {¬p} and {p} on literal <span class='literal'>p</span> to obtain {}"
    ));
}

#[test]
fn closure_terminates_on_a_larger_formula() {
    let graph = ClauseGraph::new("{p, q}, {¬p, r}, {¬q, r}, {¬r}").unwrap();
    let solution = graph.get_solution();
    assert!(solution.contains("steps:"));
}

#[test]
fn resolution_on_one_literal() {
    let a = Clause::new(vec![lit("p", false), lit("q", false)]);
    let b = Clause::new(vec![lit("p", true), lit("r", false)]);
    let resolvents = a.try_clash(&b);
    assert_eq!(resolvents.len(), 1);
    assert_eq!(resolvents[0].0.to_text(), "{q, r}");
    assert_eq!(resolvents[0].1, "p");
}

#[test]
fn resolution_yields_one_resolvent_per_clashing_literal() {
    let a = Clause::new(vec![lit("p", false), lit("p", true)]);
    let resolvents = a.try_clash(&a);
    assert_eq!(resolvents.len(), 2);
    assert_eq!(resolvents[0].1, "p");
    assert_eq!(resolvents[1].1, "p");
}

#[test]
fn clause_without_opposites_yields_no_resolvent() {
    let a = Clause::new(vec![lit("p", false)]);
    let b = Clause::new(vec![lit("q", false)]);
    assert_eq!(a.try_clash(&b).len(), 0);
}

#[test]
fn duplicate_literals_collapse_on_construction() {
    let c = Clause::new(vec![lit("p", false), lit("q", false), lit("p", false)]);
    assert_eq!(c.len(), 2);
    assert_eq!(c.to_text(), "{p, q}");
}

#[test]
fn inserting_a_present_literal_changes_nothing() {
    let mut c = Clause::new(vec![lit("p", false), lit("q", true)]);
    c.insert(lit("p", false));
    assert_eq!(c.len(), 2);
    assert_eq!(c.to_text(), "{p, ¬q}");
    c.insert(lit("r", false));
    assert_eq!(c.len(), 3);
    assert_eq!(c.to_text(), "{p, ¬q, r}");
}

#[test]
fn negated_and_plain_literals_are_distinct() {
    let mut c = Clause::new(vec![lit("p", false)]);
    c.insert(lit("p", true));
    assert_eq!(c.len(), 2);
    assert_eq!(c.to_text(), "{p, ¬p}");
}

#[test]
fn empty_clause_is_recognised() {
    let c = Clause::new(Vec::new());
    assert!(c.is_empty());
    assert_eq!(c.to_text(), "{}");
    let d = Clause::new(vec![lit("p", false)]);
    assert!(!d.is_empty());
}

#[test]
fn literal_rendering_uses_the_not_sign() {
    assert_eq!(lit("p", false).to_text(), "p");
    assert_eq!(lit("p", true).to_text(), "¬p");
}

#[test]
fn clause_lists_are_comma_joined() {
    let cs = vec![
        Clause::new(vec![lit("p", false)]),
        Clause::new(vec![lit("q", true), lit("r", false)]),
    ];
    assert_eq!(display_clauses(&cs), "{p}, {¬q, r}");
}

#[test]
fn parses_every_negation_marker() {
    for input in ["{!p}", "{~p}", "{¬p}", "{not p}", "{\\neg p}", "{! p}"] {
        let clauses = parse_input(input).unwrap();
        assert_eq!(clauses.len(), 1);
        assert_eq!(clauses[0].to_text(), "{¬p}");
    }
}

#[test]
fn parses_outer_brace_pair() {
    let clauses = parse_input("{{p, q}, {r, s}}").unwrap();
    assert_eq!(clauses.len(), 2);
    assert_eq!(clauses[0].to_text(), "{p, q}");
    assert_eq!(clauses[1].to_text(), "{r, s}");
}

#[test]
fn parses_clauses_without_separator() {
    let clauses = parse_input("{p, q}{r, s}").unwrap();
    assert_eq!(clauses.len(), 2);
}

#[test]
fn empty_input_is_rejected() {
    assert_eq!(try_parse_input("").unwrap_err(), "No formula given.");
}

#[test]
fn unbalanced_braces_are_rejected() {
    assert_eq!(try_parse_input("{p").unwrap_err(), "Curly braces do not match");
    assert_eq!(try_parse_input("}p{").unwrap_err(), "Curly braces do not match");
}

#[test]
fn missing_braces_are_rejected() {
    assert_eq!(
        try_parse_input("p, q").unwrap_err(),
        "There are no curly braces. Each clause must use exactly one set of curly braces, e.g. {p, q}."
    );
}

#[test]
fn excessive_nesting_is_rejected() {
    let message = try_parse_input("{{{p}}}").unwrap_err();
    assert!(message.starts_with("There are too many curly braces."));
}

#[test]
fn bad_separator_is_rejected() {
    let message = try_parse_input("{p} x {q}").unwrap_err();
    assert!(message.starts_with("Clauses may only be separated by comma and/or whitespace."));
}

#[test]
fn invalid_negation_token_is_rejected() {
    let message = try_parse_input("{p q}").unwrap_err();
    assert_eq!(
        message,
        "Failed to parse clause. Invalid negation symbol: p. For reference, the variable substring parsed was p q"
    );
}

#[test]
fn empty_literal_is_rejected() {
    let message = try_parse_input("{p, }").unwrap_err();
    assert!(message.starts_with("Failed to parse clause. Failed to parse variable, literal was empty."));
}

#[test]
fn lone_negation_marker_is_rejected() {
    let message = try_parse_input("{!}").unwrap_err();
    assert!(message.contains("literal consisted of only a negation symbol"));
}

#[test]
fn whitespace_in_variable_name_is_rejected() {
    let message = try_parse_input("{not p q}").unwrap_err();
    assert!(message.contains("Variable name contains whitespaces."));
}

#[test]
fn validation_and_parsing_agree() {
    let samples = [
        "{p}, {¬p}",
        "{p, q}",
        "",
        "p",
        "{p",
        "{{{p}}}",
        "{p q}",
        "{p} , {q}",
        "{{p}, {q}}",
    ];
    for input in samples {
        let validated = try_parse_input(input);
        let parsed = parse_input(input);
        assert_eq!(validated.is_ok(), parsed.is_ok());
        if let Err(message) = validated {
            assert!(!message.is_empty());
            match parsed {
                Ok(_) => panic!("validation and parsing disagree"),
                Err(other) => assert_eq!(message, other),
            }
        }
    }
}

#[test]
fn graph_construction_surfaces_the_diagnostic() {
    let message = match ClauseGraph::new("{p") {
        Ok(_) => String::new(),
        Err(m) => m,
    };
    assert_eq!(message, "Curly braces do not match");
}

#[test]
fn two_refutations_full_report() {
    let graph = ClauseGraph::new("{p}, {¬p}, {q}, {¬q}").unwrap();
    let expected = "<div class='result-line'>There are 2 ways to get the empty set, all taking 1 steps:</div>\
<div class='result-line'>&nbsp;</div>\
<div class='result-line'>Option 1:</div>\
<div class='result-line'>Resolve {p} and {¬p} on literal <span class='literal'>p</span> to obtain {}</div>\
<div class='result-line'>&nbsp;</div>\
<div class='result-line'>Option 2:</div>\
<div class='result-line'>Resolve {q} and {¬q} on literal <span class='literal'>q</span> to obtain {}</div>\
<div class='result-line'>&nbsp;</div>";
    assert_eq!(graph.get_solution(), expected);
}

#[test]
fn satisfiable_report_lists_every_step_and_the_closure() {
    let graph = ClauseGraph::new("{p, q}, {¬p}").unwrap();
    assert_eq!(graph.get_resolvents(), "Given: {p, q}, {¬p}\nIteration 1: {q}\n");
    let expected = "<div class='result-line'>The formula is satisfiable! Take these steps to get all possible clauses:</div>\
<div class='result-line'>&nbsp;</div>\
<div class='result-line'>Iteration 1:</div>\
<div class='result-line'>Resolve {p, q} and {¬p} on literal <span class='literal'>p</span> to obtain {q}</div>\
<div class='result-line'>&nbsp;</div>\
<div class='result-line'>At the end you should get these 3 clauses:</div>\
<div class='result-line'>Given: {p, q}, {¬p}</div>\
<div class='result-line'>Iteration 1: {q}</div>\
<div class='result-line'>&nbsp;</div>";
    assert_eq!(graph.get_solution(), expected);
}

#[test]
fn deep_unsatisfiable_formula_is_refuted() {
    let graph = ClauseGraph::new("{p, q}, {¬p, q}, {p, ¬q}, {¬p, ¬q}").unwrap();
    let solution = graph.get_solution();
    assert!(solution.contains("to get the empty set"));
}
