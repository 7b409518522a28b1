use archmage::ast::AstExpr;
use archmage::evaluate::{evaluate, EvaluationOutcome};
use archmage::parser::DiceParser;
use archmage::token::tokenize_expr;

/// Unwrap a successful evaluation into `(value, trace)`.
fn eval_ok(input: &str) -> (i64, String) {
    match evaluate(input) {
        EvaluationOutcome::Success { value, trace } => (value, trace),
        EvaluationOutcome::LexError { message } => {
            panic!("{:?} failed to lex: {}", input, message)
        }
        EvaluationOutcome::ParseErrors { messages } => {
            panic!("{:?} failed to parse: {:?}", input, messages)
        }
    }
}

fn lex_err(input: &str) -> String {
    match evaluate(input) {
        EvaluationOutcome::LexError { message } => message,
        _ => panic!("{:?} did not fail at the lex stage", input),
    }
}

fn parse_errs(input: &str) -> Vec<String> {
    match evaluate(input) {
        EvaluationOutcome::ParseErrors { messages } => messages,
        _ => panic!("{:?} did not fail at the parse stage", input),
    }
}

#[test]
fn literal_addition_value_and_trace() {
    assert_eq!(eval_ok("2+3"), (5, "2 + 3".to_string()));
    assert_eq!(eval_ok("0+0"), (0, "0 + 0".to_string()));
    assert_eq!(eval_ok("120+7"), (127, "120 + 7".to_string()));
}

#[test]
fn subtraction_is_left_associative() {
    assert_eq!(eval_ok("5-3-1").0, 1);
    assert_eq!(eval_ok("10-3-2").0, 5);
    assert_eq!(eval_ok("5-3-1").1, "5 - 3 - 1");
}

#[test]
fn factor_binds_tighter_than_term() {
    assert_eq!(eval_ok("2+3*4").0, 14);
    assert_eq!(eval_ok("(2+3)*4").0, 20);
}

#[test]
fn die_roll_value_matches_its_trace() {
    for _ in 0..200 {
        let (value, trace) = eval_ok("3d6");
        assert!(3 <= value && value <= 18);
        assert!(trace.starts_with('[') && trace.ends_with(']'));
        let inner = &trace[1..trace.len() - 1];
        let rolls: Vec<i64> = inner.split(", ").map(|p| p.parse().unwrap()).collect();
        assert_eq!(rolls.len(), 3);
        for r in &rolls {
            assert!(1 <= *r && *r <= 6);
        }
        assert_eq!(rolls.iter().sum::<i64>(), value);
    }
}

#[test]
fn bare_die_normalizes_to_one_die() {
    let toks = tokenize_expr("d20").unwrap();
    assert_eq!(toks.len(), 1);
    assert_eq!(toks[0].id(), 1);
    assert_eq!(toks[0].value(), "1d20");

    let toks = tokenize_expr("1d20").unwrap();
    assert_eq!(toks.len(), 1);
    assert_eq!(toks[0].value(), "1d20");

    for _ in 0..100 {
        let (value, _) = eval_ok("d20");
        assert!(1 <= value && value <= 20);
    }
}

#[test]
fn divide_by_zero_yields_zero_and_the_marker() {
    assert_eq!(eval_ok("4/0"), (0, "ERROR: DIVIDE BY ZERO".to_string()));
    // nested: only the faulting node's trace is replaced
    assert_eq!(eval_ok("1+4/0"), (1, "1 + ERROR: DIVIDE BY ZERO".to_string()));
}

#[test]
fn unmatched_parenthesis_is_a_parse_error() {
    let errs = parse_errs("2+(3");
    assert_eq!(errs[0], "Unmatched parenthesis");

    // the substituted tree evaluates deterministically: the unmatched
    // group stands in as 0 and combines as usual
    let mut p = DiceParser::new("2+(3").unwrap();
    let tree = p.expr();
    assert_eq!(p.errors().len(), 1);
    assert_eq!(p.errors()[0], "Unmatched parenthesis");
    let (value, _) = tree.eval();
    assert_eq!(value, 2);
}

#[test]
fn unlexable_character_fails_at_the_lex_stage() {
    assert_eq!(
        lex_err("2+@"),
        "@ was not recognized as a valid number or dice expression (Code: 2)"
    );
    assert_eq!(
        lex_err("@+2"),
        "@ was not recognized as a valid number or dice expression (Code: 1)"
    );
    assert_eq!(
        lex_err("2d"),
        "2d was not recognized as a valid number or dice expression (Code: 2)"
    );
}

#[test]
fn one_die_is_uniform_enough() {
    let trials = 12000;
    let mut counts = [0u32; 6];
    for _ in 0..trials {
        let (value, _) = eval_ok("1d6");
        assert!(1 <= value && value <= 6);
        counts[(value - 1) as usize] += 1;
    }
    // expectation is 2000 per face; allow a generous band
    for c in counts {
        assert!(1400 <= c && c <= 2600, "counts were {:?}", counts);
    }
}

#[test]
fn empty_input_fails_at_construction() {
    assert_eq!(lex_err(""), "Expression is empty");
    assert_eq!(lex_err("  \t "), "Expression is empty");
}

#[test]
fn whitespace_is_skipped_but_does_not_flush() {
    // the digits on either side of the space join into one constant
    assert_eq!(eval_ok("1 2+3").0, 15);
    assert_eq!(eval_ok(" 2 + 3 ").0, 5);
}

#[test]
fn addition_saturates_at_the_extremes() {
    assert_eq!(eval_ok("9223372036854775807+1").0, i64::MAX);
    assert_eq!(eval_ok("0-9223372036854775807").0, i64::MIN + 1);
    assert_eq!(eval_ok("0-9223372036854775807-9223372036854775807").0, i64::MIN);
    // an oversized literal itself clamps
    assert_eq!(eval_ok("99999999999999999999").0, i64::MAX);
    assert_eq!(eval_ok("3*9223372036854775807").0, i64::MAX);
}

#[test]
fn division_truncates_toward_zero() {
    assert_eq!(eval_ok("7/2").0, 3);
    assert_eq!(eval_ok("(0-7)/2").0, -3);
    assert_eq!(eval_ok("7/(0-2)").0, -3);
    assert_eq!(eval_ok("(0-7)/(0-2)").0, 3);
    // the one saturating quotient
    assert_eq!(eval_ok("(0-9223372036854775807-1)/(0-1)").0, i64::MAX);
}

#[test]
fn die_with_oversized_count_reports_the_numeric_part() {
    let errs = parse_errs("99999999999999999999d6");
    assert_eq!(
        errs[0],
        "\"99999999999999999999d6\" NUMBER in dice expression was not purely numeric"
    );
}

#[test]
fn dangling_operator_reports_unparseable_input() {
    let errs = parse_errs("2+");
    assert_eq!(errs[0], "Could not parse input");
    let errs = parse_errs("2+*");
    assert_eq!(errs[0], "Could not parse input");
}

#[test]
fn zero_dice_sum_to_zero() {
    assert_eq!(eval_ok("0d6"), (0, "[]".to_string()));
    assert_eq!(eval_ok("1d1"), (1, "[1]".to_string()));
    // a sideless die cannot roll anything: each draw counts 0
    assert_eq!(eval_ok("1d0"), (0, "[0]".to_string()));
}

#[test]
fn token_kinds_and_texts_round_trip() {
    let toks = tokenize_expr("2+3*4/(1d6-5)").unwrap();
    let ids: Vec<i64> = toks.iter().map(|t| t.id()).collect();
    assert_eq!(ids, vec![0, 2, 0, 3, 0, 3, 4, 1, 2, 0, 4]);
    let texts: Vec<&String> = toks.iter().map(|t| t.value()).collect();
    assert_eq!(texts, vec!["2", "+", "3", "*", "4", "/", "(", "1d6", "-", "5", ")"]);
}

#[test]
fn term_parses_an_operator_chain() {
    let mut p = DiceParser::new("2*3+4").unwrap();
    let tree = p.term();
    assert!(p.errors().is_empty());
    let (value, trace) = tree.eval();
    assert_eq!(value, 10);
    assert_eq!(trace, "2 * 3 + 4");
}

#[test]
fn mixed_dice_and_arithmetic_stay_in_range() {
    for _ in 0..100 {
        let (value, _) = eval_ok("2d6+3*(1d4-1)");
        // 2d6 in [2,12]; 1d4-1 in [0,3]; total in [2, 21]
        assert!(2 <= value && value <= 21);
    }
}

fn tree_of(input: &str) -> AstExpr {
    let mut p = DiceParser::new(input).unwrap();
    let tree = p.expr();
    assert!(p.errors().is_empty());
    tree
}

#[test]
fn reevaluating_one_tree_draws_fresh_rolls() {
    let tree = tree_of("10d20");
    let mut seen = std::collections::HashSet::new();
    for _ in 0..50 {
        let (value, _) = tree.eval();
        assert!(10 <= value && value <= 200);
        seen.insert(value);
    }
    // fifty sums of ten d20s virtually never coincide completely
    assert!(seen.len() > 1);
}
