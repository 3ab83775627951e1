use automata::{Automaton, Conclusion, ExecutedAutomaton, Id, ParseError, ParseErrorReason, Role};

fn ids(names: &[&str]) -> Vec<Id> {
    names.iter().map(|n| Id::new(n)).collect()
}

fn run_source(source: &str, input: &str) -> ExecutedAutomaton {
    let automaton = Automaton::from_str(source).expect("source should parse");
    let symbols: Vec<char> = input.chars().collect();
    automaton.run(&symbols)
}

fn parse_error(source: &str) -> ParseError {
    match Automaton::from_str(source) {
        Ok(_) => panic!("source should not parse"),
        Err(e) => e,
    }
}

const TWO_STATES: &str = "S0 # start\na => S1\nS1 # end\n";

#[test]
fn start_state_that_is_an_end_state_accepts_empty_input() {
    let r = run_source("S0 # start # end", "");
    assert_eq!(r.conclusion, Conclusion::Accepted);
    assert_eq!(r.path_taken, ids(&["S0"]));
}

#[test]
fn one_transition_into_end_state_accepts() {
    let r = run_source(TWO_STATES, "a");
    assert_eq!(r.conclusion, Conclusion::Accepted);
    assert_eq!(r.path_taken, ids(&["S0", "S1"]));
}

#[test]
fn symbol_without_transition_is_unknown_char() {
    let r = run_source(TWO_STATES, "b");
    assert_eq!(r.conclusion, Conclusion::UnknownChar { at: Id::new("S0"), input: 'b' });
    assert_eq!(r.path_taken, ids(&["S0"]));
}

#[test]
fn ordinary_final_state_is_not_at_endnode() {
    let r = run_source("S0 # start", "");
    assert_eq!(r.conclusion, Conclusion::NotAtEndnode);
    assert_eq!(r.path_taken, ids(&["S0"]));
}

#[test]
fn transition_to_undefined_state_is_unknown_target() {
    let r = run_source("S0 # start\nx => S9\n", "x");
    assert_eq!(
        r.conclusion,
        Conclusion::UnknownTarget { from: Id::new("S0"), through: 'x', target: Id::new("S9") }
    );
    assert_eq!(r.path_taken, ids(&["S0", "S9"]));
}

#[test]
fn undefined_state_in_the_middle_stops_the_run() {
    let r = run_source("S0 # start\nx => S9\n", "xyz");
    assert_eq!(
        r.conclusion,
        Conclusion::UnknownTarget { from: Id::new("S0"), through: 'x', target: Id::new("S9") }
    );
    assert_eq!(r.path_taken, ids(&["S0", "S9"]));
}

#[test]
fn catch_state_is_reported() {
    let r = run_source("S0 # start\na => T\nT # catch\n", "a");
    assert_eq!(r.conclusion, Conclusion::AtCatchnode);
    assert_eq!(r.path_taken, ids(&["S0", "T"]));
}

#[test]
fn empty_left_side_is_missing_chars_on_its_counted_line() {
    let e = parse_error("S0 # start\n\n// a comment\n   \n=> S1\n");
    assert_eq!(e, ParseError { on_line: 1, reason: ParseErrorReason::MissingChars });
}

#[test]
fn empty_right_side_is_missing_target() {
    let e = parse_error("S0 # start\nab =>   \n");
    assert_eq!(e, ParseError { on_line: 1, reason: ParseErrorReason::MissingTarget });
}

#[test]
fn rule_before_any_header_is_not_in_section() {
    let e = parse_error("a => S1\nS0 # start\n");
    assert_eq!(e, ParseError { on_line: 0, reason: ParseErrorReason::NotInSection });
}

#[test]
fn malformed_rule_before_any_header_is_not_in_section() {
    let e = parse_error("// leading comment\n=> S1\nS0 # start\n");
    assert_eq!(e, ParseError { on_line: 0, reason: ParseErrorReason::NotInSection });
    let e = parse_error("a =>\nS0 # start\n");
    assert_eq!(e, ParseError { on_line: 0, reason: ParseErrorReason::NotInSection });
}

#[test]
fn source_without_start_is_no_start_state() {
    let e = parse_error("S0 # end\na => S0\nS1\n");
    assert_eq!(e, ParseError { on_line: 0, reason: ParseErrorReason::NoStartState });
    let e = parse_error("");
    assert_eq!(e, ParseError { on_line: 0, reason: ParseErrorReason::NoStartState });
}

#[test]
fn unknown_modifier_names_the_modifier() {
    let e = parse_error("S0 # start\nS1 #  final \n");
    assert_eq!(
        e,
        ParseError { on_line: 1, reason: ParseErrorReason::UnknownModifier("final".to_string()) }
    );
    let e = parse_error("S0 # start #\n");
    assert_eq!(
        e,
        ParseError { on_line: 0, reason: ParseErrorReason::UnknownModifier(String::new()) }
    );
}

#[test]
fn every_symbol_on_the_left_gets_a_transition() {
    let a = Automaton::from_str("S0 # start\na b\tc => S1\nS1 # end\n").unwrap();
    let s0 = a.nodes.iter().find(|(id, _)| *id == Id::new("S0")).unwrap();
    let mut symbols: Vec<char> = s0.1.transitions.iter().map(|(c, _)| *c).collect();
    symbols.sort();
    assert_eq!(symbols, vec!['a', 'b', 'c']);
    for ch in ["a", "b", "c"] {
        assert_eq!(run_source("S0 # start\na b\tc => S1\nS1 # end\n", ch).conclusion, Conclusion::Accepted);
    }
}

#[test]
fn repeated_symbol_takes_the_later_target() {
    let r = run_source("S0 # start\na => S1\na => S2\nS1\nS2 # end\n", "a");
    assert_eq!(r.conclusion, Conclusion::Accepted);
    assert_eq!(r.path_taken, ids(&["S0", "S2"]));
}

#[test]
fn reopening_a_state_replaces_it() {
    let a = Automaton::from_str("S0 # start\na => S0\nS0 # end\n").unwrap();
    assert_eq!(a.nodes.len(), 1);
    assert!(a.nodes[0].1.transitions.is_empty());
    assert_eq!(a.nodes[0].1.role, Role::End);
    let r = run_source("S0 # start\na => S0\nS0 # end\n", "a");
    assert_eq!(r.conclusion, Conclusion::UnknownChar { at: Id::new("S0"), input: 'a' });
}

#[test]
fn later_role_modifier_wins() {
    let r = run_source("S0 # start # end # catch\n", "");
    assert_eq!(r.conclusion, Conclusion::AtCatchnode);
}

#[test]
fn target_ends_at_a_second_arrow() {
    let r = run_source("S0 # start\na => S1 => S2\nS1 # end\n", "a");
    assert_eq!(r.conclusion, Conclusion::Accepted);
    assert_eq!(r.path_taken, ids(&["S0", "S1"]));
}

#[test]
fn windows_line_endings_and_indentation_are_accepted() {
    let r = run_source("  S0 # start\r\n\ta => S1\r\n S1 # end \r\n", "a");
    assert_eq!(r.conclusion, Conclusion::Accepted);
    assert_eq!(r.path_taken, ids(&["S0", "S1"]));
}

#[test]
fn path_has_one_more_state_than_consumed_symbols() {
    let src = "S0 # start\na => S1\nS1\nb => S0\n";
    let r = run_source(src, "abab");
    assert_eq!(r.conclusion, Conclusion::NotAtEndnode);
    assert_eq!(r.path_taken.len(), 5);
    let r = run_source(src, "abba");
    assert_eq!(r.conclusion, Conclusion::UnknownChar { at: Id::new("S0"), input: 'b' });
    assert_eq!(r.path_taken, ids(&["S0", "S1", "S0"]));
}

#[test]
fn accepting_input_gives_path_one_longer_than_input() {
    let src = "S0 # start\nx => S1\nS1\ny => S2\nS2 # end\n";
    let r = run_source(src, "xy");
    assert_eq!(r.conclusion, Conclusion::Accepted);
    assert_eq!(r.path_taken, ids(&["S0", "S1", "S2"]));
}

#[test]
fn parsing_twice_gives_the_same_automaton() {
    let src = "S0 # start\nab => S1\nS1 # end\nc => S0\n";
    assert_eq!(Automaton::from_str(src), Automaton::from_str(src));
}

#[test]
fn report_lists_path_and_outcome() {
    let r = run_source(TWO_STATES, "a");
    assert_eq!(r.report(), "nodes visited: S0 -> S1\nconclusion: accepted");
    let r = run_source(TWO_STATES, "b");
    assert_eq!(
        r.report(),
        "nodes visited: S0\nconclusion: rejected, state `S0` didn't define what to do at character `b`"
    );
}

#[test]
fn each_outcome_has_its_own_text() {
    assert_eq!(Conclusion::NotAtEndnode.describe(), "rejected, the final node was not marked as an end node");
    assert_eq!(Conclusion::AtCatchnode.describe(), "rejected, the final node was a catch node");
    let c = Conclusion::UnknownTarget { from: Id::new("A"), through: 'q', target: Id::new("Z") };
    assert_eq!(
        c.describe(),
        "rejected, state `A` defined a transition through `q` to `Z`, which isn't defined anywhere"
    );
}

#[test]
fn non_ascii_identifiers_and_symbols() {
    let r = run_source("ζ # start\né => ω\nω # end\n", "é");
    assert_eq!(r.conclusion, Conclusion::Accepted);
    assert_eq!(r.path_taken, ids(&["ζ", "ω"]));
    assert_eq!(r.report(), "nodes visited: ζ -> ω\nconclusion: accepted");
}

#[test]
fn undefined_start_with_empty_input_is_unknown_target_on_start() {
    let a = Automaton { nodes: Vec::new(), start_at: Id::new("Q") };
    let r = a.run(&[]);
    assert_eq!(
        r.conclusion,
        Conclusion::UnknownTarget { from: Id::new("Q"), through: '\0', target: Id::new("Q") }
    );
    assert_eq!(r.path_taken, ids(&["Q"]));
}

#[test]
fn undefined_start_with_input_is_unknown_target_through_first_symbol() {
    let other = automata::Node { transitions: vec![('a', Id::new("Q"))], role: Role::End };
    let a = Automaton { nodes: vec![(Id::new("P"), other)], start_at: Id::new("Q") };
    let r = a.run(&['z', 'a']);
    assert_eq!(
        r.conclusion,
        Conclusion::UnknownTarget { from: Id::new("Q"), through: 'z', target: Id::new("Q") }
    );
    assert_eq!(r.path_taken, ids(&["Q"]));
    assert_eq!(
        r.report(),
        "nodes visited: Q\nconclusion: rejected, state `Q` defined a transition through `z` to `Q`, which isn't defined anywhere"
    );
}

#[test]
fn parsed_automaton_has_one_entry_per_state_and_symbol() {
    let a = Automaton::from_str("S0 # start\nab => S1\nb => S2\nS1\nS0 # end\nc => S1\nc => S0\n").unwrap();
    let names: Vec<&str> = a.nodes.iter().map(|(id, _)| id.as_str()).collect();
    assert_eq!(names.len(), 2);
    assert!(names.contains(&"S0") && names.contains(&"S1"));
    let s0 = a.nodes.iter().find(|(id, _)| id.as_str() == "S0").unwrap();
    assert_eq!(s0.1.transitions, vec![('c', Id::new("S0"))]);
    assert!(a.nodes.iter().any(|(id, _)| *id == a.start_at));
}
