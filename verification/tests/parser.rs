use workout_note_parser::{
    get_exercise_from_pairs, parse_rule, parse_set, parse_workout, Error, Exercise, LiftSet, Pair,
    Rule, Weight,
};

fn w(mantissa: u64, scale: usize) -> Weight {
    Weight { mantissa, scale }
}

fn lift(mantissa: u64, scale: usize, n_reps: i32) -> LiftSet {
    LiftSet { weight: w(mantissa, scale), n_reps }
}

#[test]
fn weight() {
    let parsed = parse_rule(Rule::weight, "35        ").unwrap();
    assert!(parsed.as_str() == "35");
}

#[test]
fn set() {
    parse_rule(Rule::set, "35.5 x 10").unwrap();
}

#[test]
fn extended_set() {
    parse_rule(Rule::set, "35.5 x 10 + 40 x 8").unwrap();

    parse_rule(Rule::set, "35.5 x 10 + 40 x 8 # this was really tough").unwrap();
}

#[test]
fn workout() {
    let input = r#"
        vert block
        35.5 x 10
        35.5 x 10 + 40 x 8
        35.5 x 10 + 40 x 8 this was really tough

        vert block
        35.5 x 10
        35.5 x 10 + 40 x 8
        35.5 x 10 + 40 x 8 this was really tough

        vert block
        35.5 x 10
        35.5 x 10 + 40 x 8
        35.5 x 10 + 40 x 8 this was really tough
        "#;

    let parsed = parse_rule(Rule::workout, input).unwrap();
    println!("Parsed: {:#?}", parsed);
}

#[test]
fn weight_keeps_fraction_drops_whitespace() {
    let parsed = parse_rule(Rule::weight, "35.5   ").unwrap();
    assert_eq!(parsed.as_str(), "35.5");
    assert_eq!(parsed.as_rule(), Rule::weight);
}

#[test]
fn set_single_line() {
    let pair = parse_rule(Rule::set, "35.5 x 10").unwrap();
    let ex = parse_set(String::from("bench"), pair).unwrap();
    assert_eq!(ex.name, "bench");
    assert_eq!(ex.sets, vec![lift(355, 1, 10)]);
    assert_eq!(ex.comment, None);
}

#[test]
fn set_chained_line() {
    let pair = parse_rule(Rule::set, "35.5 x 10 + 40 x 8").unwrap();
    let ex = parse_set(String::from("bench"), pair).unwrap();
    assert_eq!(ex.sets, vec![lift(355, 1, 10), lift(40, 0, 8)]);
    assert_eq!(ex.comment, None);
}

#[test]
fn set_chained_line_with_comment() {
    let pair = parse_rule(Rule::set, "35.5 x 10 + 40 x 8 # this was really tough").unwrap();
    let ex = parse_set(String::from("bench"), pair).unwrap();
    assert_eq!(ex.sets, vec![lift(355, 1, 10), lift(40, 0, 8)]);
    assert_eq!(ex.comment, Some(String::from("this was really tough")));
}

#[test]
fn workout_three_blocks_one_record_per_line() {
    let input = "\
vert block
35.5 x 10
35.5 x 10 + 40 x 8
35.5 x 10 + 40 x 8 this was really tough

second block
20 x 5

third block
60 x 1 all out
";
    let parsed = parse_workout(input).unwrap();
    assert_eq!(parsed.len(), 5);
    assert_eq!(parsed[0].name, "vert block");
    assert_eq!(parsed[1].name, "vert block");
    assert_eq!(parsed[2].name, "vert block");
    assert_eq!(parsed[3].name, "second block");
    assert_eq!(parsed[4].name, "third block");
    assert_eq!(parsed[0].sets, vec![lift(355, 1, 10)]);
    assert_eq!(parsed[0].comment, None);
    assert_eq!(parsed[1].sets, vec![lift(355, 1, 10), lift(40, 0, 8)]);
    assert_eq!(parsed[1].comment, None);
    assert_eq!(parsed[2].sets, vec![lift(355, 1, 10), lift(40, 0, 8)]);
    assert_eq!(parsed[2].comment, Some(String::from("this was really tough")));
    assert_eq!(parsed[3].sets, vec![lift(20, 0, 5)]);
    assert_eq!(parsed[4].sets, vec![lift(60, 0, 1)]);
    assert_eq!(parsed[4].comment, Some(String::from("all out")));
}

#[test]
fn empty_input_yields_no_records() {
    let parsed = parse_workout("").unwrap();
    assert_eq!(parsed.len(), 0);
}

#[test]
fn blank_lines_only_yield_no_records() {
    let parsed = parse_workout("\n   \n\t\n").unwrap();
    assert_eq!(parsed.len(), 0);
}

#[test]
fn parsing_twice_yields_equal_results() {
    let input = "bench press\n20 x 10\n50.5 x 3 + 20 x 8 near the edge\n";
    let first = parse_workout(input).unwrap();
    let second = parse_workout(input).unwrap();
    assert_eq!(first, second);
}

#[test]
fn name_line_without_sets_is_a_syntax_error() {
    let input = "bench press\nanother name\n35 x 10\n";
    match parse_workout(input) {
        Err(Error::ParsingError(e)) => {
            assert_eq!(e.line, 2);
            assert_eq!(e.col, 1);
            assert_eq!(e.expected, vec![Rule::set]);
        }
        other => panic!("expected a syntax error, got {:?}", other),
    }
}

#[test]
fn malformed_set_line_is_a_syntax_error_at_its_position() {
    let input = "bench press\n20 y 10\n";
    match parse_workout(input) {
        Err(Error::ParsingError(e)) => {
            assert_eq!(e.line, 2);
            assert_eq!(e.col, 4);
            assert_eq!(e.expected, vec![Rule::set]);
        }
        other => panic!("expected a syntax error, got {:?}", other),
    }
}

#[test]
fn set_line_before_any_name_is_a_syntax_error() {
    match parse_workout("20 x 10\n") {
        Err(Error::ParsingError(e)) => {
            assert_eq!(e.line, 1);
            assert_eq!(e.expected, vec![Rule::name]);
        }
        other => panic!("expected a syntax error, got {:?}", other),
    }
}

#[test]
fn reps_overflow_is_an_int_error() {
    match parse_workout("bench\n5 x 99999999999\n") {
        Err(Error::ParseIntError(t)) => assert_eq!(t, "99999999999"),
        other => panic!("expected an integer conversion error, got {:?}", other),
    }
}

#[test]
fn reps_just_over_the_count_limit_is_an_int_error() {
    match parse_workout("bench\n5 x 2147483648\n") {
        Err(Error::ParseIntError(t)) => assert_eq!(t, "2147483648"),
        other => panic!("expected an integer conversion error, got {:?}", other),
    }
    let parsed = parse_workout("bench\n5 x 2147483647\n").unwrap();
    assert_eq!(parsed[0].sets, vec![lift(5, 0, 2147483647)]);
}

#[test]
fn weight_overflow_is_a_float_error() {
    match parse_workout("bench\n99999999999999999999 x 5\n") {
        Err(Error::ParseFloatError(t)) => assert_eq!(t, "99999999999999999999"),
        other => panic!("expected a weight conversion error, got {:?}", other),
    }
}

#[test]
fn parse_set_rejects_a_non_set_node() {
    let name_node = parse_rule(Rule::name, "bench").unwrap();
    match parse_set(String::from("bench"), name_node) {
        Err(Error::ExpectedRule(Rule::set)) => {}
        other => panic!("expected a rule mismatch, got {:?}", other),
    }
}

#[test]
fn parse_set_reports_unexpected_rules_in_the_chain() {
    let bad = Pair {
        rule: Rule::set,
        text: String::new(),
        children: vec![
            Pair { rule: Rule::weight, text: String::from("10"), children: vec![] },
            Pair { rule: Rule::reps, text: String::from("2"), children: vec![] },
            Pair { rule: Rule::workout, text: String::new(), children: vec![] },
        ],
    };
    match parse_set(String::from("bench"), bad) {
        Err(Error::UnexpectedRule(Rule::workout)) => {}
        other => panic!("expected an unexpected-rule error, got {:?}", other),
    }
}

#[test]
fn parse_set_reports_missing_children() {
    let no_children = Pair { rule: Rule::set, text: String::new(), children: vec![] };
    match parse_set(String::from("bench"), no_children) {
        Err(Error::ExpectedRule(Rule::weight)) => {}
        other => panic!("expected a missing-weight error, got {:?}", other),
    }
    let one_child = Pair {
        rule: Rule::set,
        text: String::new(),
        children: vec![Pair { rule: Rule::weight, text: String::from("10"), children: vec![] }],
    };
    match parse_set(String::from("bench"), one_child) {
        Err(Error::ExpectedRule(Rule::reps)) => {}
        other => panic!("expected a missing-reps error, got {:?}", other),
    }
}

#[test]
fn exercise_rule_yields_one_record_per_set_line() {
    let pair = parse_rule(Rule::exercise, "bench\n20 x 10\n30 x 5 warm\n").unwrap();
    let records = get_exercise_from_pairs(pair).unwrap();
    assert_eq!(records.len(), 2);
    assert_eq!(records[0].name, "bench");
    assert_eq!(records[0].sets, vec![lift(20, 0, 10)]);
    assert_eq!(records[1].name, "bench");
    assert_eq!(records[1].sets, vec![lift(30, 0, 5)]);
    assert_eq!(records[1].comment, Some(String::from("warm")));
}

#[test]
fn get_exercise_rejects_a_non_exercise_node() {
    let name_node = parse_rule(Rule::name, "bench").unwrap();
    match get_exercise_from_pairs(name_node) {
        Err(Error::ExpectedRule(Rule::exercise)) => {}
        other => panic!("expected a rule mismatch, got {:?}", other),
    }
}

#[test]
fn comment_marker_is_stripped_and_text_trimmed() {
    let pair = parse_rule(Rule::set, "10 x 2 #   padded comment  ").unwrap();
    let ex = parse_set(String::from("a"), pair).unwrap();
    assert_eq!(ex.comment, Some(String::from("padded comment")));
    let pair2 = parse_rule(Rule::set, "10 x 2 plain words").unwrap();
    let ex2 = parse_set(String::from("a"), pair2).unwrap();
    assert_eq!(ex2.comment, Some(String::from("plain words")));
}

#[test]
fn names_are_trimmed_and_indentation_tolerated() {
    let parsed = parse_workout("   bench press   \n  20 x 10  \n").unwrap();
    assert_eq!(parsed.len(), 1);
    assert_eq!(parsed[0].name, "bench press");
    assert_eq!(parsed[0].sets, vec![lift(20, 0, 10)]);
}

#[test]
fn failed_chain_continuation_becomes_a_comment() {
    let pair = parse_rule(Rule::set, "10 x 2 + more later").unwrap();
    let ex = parse_set(String::from("a"), pair).unwrap();
    assert_eq!(ex.sets, vec![lift(10, 0, 2)]);
    assert_eq!(ex.comment, Some(String::from("+ more later")));
}

#[test]
fn three_blocks_of_three_lines_yield_nine_records() {
    let input = r#"
        vert block
        35.5 x 10
        35.5 x 10 + 40 x 8
        35.5 x 10 + 40 x 8 this was really tough

        vert block
        35.5 x 10
        35.5 x 10 + 40 x 8
        35.5 x 10 + 40 x 8 this was really tough

        vert block
        35.5 x 10
        35.5 x 10 + 40 x 8
        35.5 x 10 + 40 x 8 this was really tough
        "#;
    let parsed = parse_workout(input).unwrap();
    assert_eq!(parsed.len(), 9);
    for record in &parsed {
        assert_eq!(record.name, "vert block");
    }
    for b in 0..3 {
        assert_eq!(parsed[3 * b].sets, vec![lift(355, 1, 10)]);
        assert_eq!(parsed[3 * b].comment, None);
        assert_eq!(parsed[3 * b + 1].sets, vec![lift(355, 1, 10), lift(40, 0, 8)]);
        assert_eq!(parsed[3 * b + 1].comment, None);
        assert_eq!(parsed[3 * b + 2].sets, vec![lift(355, 1, 10), lift(40, 0, 8)]);
        assert_eq!(parsed[3 * b + 2].comment, Some(String::from("this was really tough")));
    }
}

#[test]
fn crlf_line_ends_parse_like_plain_newlines() {
    let parsed = parse_workout("bench press\r\n20 x 10\r\n").unwrap();
    assert_eq!(parsed.len(), 1);
    assert_eq!(parsed[0].name, "bench press");
    assert_eq!(parsed[0].sets, vec![lift(20, 0, 10)]);
    assert_eq!(parsed[0].comment, None);
}

#[test]
fn names_and_comments_may_hold_any_text() {
    let parsed = parse_workout("Übung für heute\n20 x 10 schwer, aber möglich\n").unwrap();
    assert_eq!(parsed.len(), 1);
    assert_eq!(parsed[0].name, "Übung für heute");
    assert_eq!(parsed[0].comment, Some(String::from("schwer, aber möglich")));
}
