use polycanon::errors::InterpreterError;
use polycanon::expression::ParsedExpression;
use polycanon::interpreter::Interpreter;
use polycanon::lexer::Token;
use polycanon::parser::ASTNode;

fn lex(input: &str) -> Result<Vec<Token>, InterpreterError> {
    let mut interpreter = Interpreter::new();
    interpreter.lex(input)
}

fn parse(tokens: Vec<Token>) -> Result<ASTNode, InterpreterError> {
    let mut interpreter = Interpreter::new();
    interpreter.parse(tokens)
}

fn interpret(input: &str) -> Result<String, InterpreterError> {
    let interpreter = Interpreter::new();
    interpreter.interpret(parse(lex(input)?)?)
}

#[test]
fn permutations_of_three_terms_agree() {
    let expected = "100x^2 + 200x + 300";
    let inputs = [
        "100x^2 + 200x + 300",
        "100x^2 + 300 + 200x",
        "200x + 100x^2 + 300",
        "200x + 300 + 100x^2",
        "300 + 100x^2 + 200x",
        "300 + 200x + 100x^2",
    ];
    for input in inputs {
        assert_eq!(interpret(input).unwrap(), expected);
    }
}

#[test]
fn like_terms_fuse_with_distinct_coefficients() {
    assert_eq!(interpret("2x^2 + 3x^2").unwrap(), "5x^2");
    assert_eq!(interpret("1 + 2 + 3 + 4").unwrap(), "10");
    assert_eq!(interpret("2xy + 3xy + x").unwrap(), "x + 5xy");
}

#[test]
fn cancellation_renders_zero_entry() {
    // A lone entry driven to exactly zero makes every coefficient zero, so
    // the whole expression renders as "0"; beside a nonzero entry it stays
    // in the map and renders with its zero coefficient.
    assert_eq!(interpret("2x - 2x").unwrap(), "0");
    assert_eq!(interpret("2x - 2x + y").unwrap(), "0x + y");
}

#[test]
fn implicit_coefficient_is_one() {
    assert_eq!(interpret("x").unwrap(), "x");
    assert_eq!(interpret("x + x").unwrap(), "2x");
}

#[test]
fn multi_sign_runs_fold_by_parity() {
    assert_eq!(interpret("--1x").unwrap(), "x");
    assert_eq!(interpret("----5").unwrap(), "5");
    assert_eq!(interpret("-+-+1x").unwrap(), "x");
    assert_eq!(interpret("---2").unwrap(), "-2");
}

#[test]
fn twenty_digit_numeral_overflows() {
    let input = "99999999999999999999";
    assert!(interpret(input).is_err());
    let fits = "922337203685477579";
    assert_eq!(interpret(fits).unwrap(), "922337203685477579");
}

#[test]
fn unexpected_token_is_rejected() {
    assert!(interpret("(").is_err());
    assert!(interpret("1 * 2").is_err());
}

#[test]
fn interpreting_a_bare_number_renders_it() {
    let interpreter = Interpreter::new();
    assert_eq!(interpreter.interpret(ASTNode::Number(-5)).unwrap(), "-5");
    assert_eq!(interpreter.interpret(ASTNode::Number(0)).unwrap(), "0");
}

#[test]
fn interpreting_a_non_expression_root_fails() {
    let interpreter = Interpreter::new();
    let root = ASTNode::Variable('x', Box::new(ASTNode::Number(1)));
    assert!(interpreter.interpret(root).is_err());
}

#[test]
fn keyword_identifiers_flush_early() {
    let tokens = lex("pix").unwrap();
    assert_eq!(tokens.len(), 2);
    assert_eq!(tokens[0], Token::Identifier(vec!['p', 'i']));
    assert_eq!(tokens[1], Token::Identifier(vec!['x']));

    let plain = lex("xip").unwrap();
    assert_eq!(plain.len(), 1);
    assert_eq!(plain[0], Token::Identifier(vec!['x', 'i', 'p']));
}

#[test]
fn whitespace_does_not_flush_identifiers() {
    let tokens = lex("a b").unwrap();
    assert_eq!(tokens.len(), 1);
    assert_eq!(tokens[0], Token::Identifier(vec!['a', 'b']));
}

#[test]
fn accumulator_tracks_entries_and_variables() {
    let mut acc = ParsedExpression::new();
    acc.add_term(vec![('x', 2)], 3);
    acc.add_term(vec![('x', 2)], 4);
    acc.add_term(vec![('y', 1)], 0);
    assert_eq!(acc.get_term(vec![('x', 2)]), Some(7));
    assert_eq!(acc.get_term(vec![('y', 1)]), None);
    assert_eq!(acc.get_variables(), vec!['x']);

    let sigs = acc.get_sorted_term_sigs();
    assert_eq!(sigs, vec![vec![('x', 2)]]);
}

#[test]
fn accumulator_records_every_variable_name() {
    let mut acc = ParsedExpression::new();
    acc.add_term(vec![('x', 1), ('y', 2)], 2);
    acc.add_term(vec![('z', 1)], 0);
    // every name of a recorded term is kept; a zero term records nothing
    assert_eq!(acc.get_variables(), vec!['x', 'y']);
}

#[test]
fn sign_only_input_renders_zero() {
    assert_eq!(interpret("-").unwrap(), "0");
    assert_eq!(interpret("+").unwrap(), "0");
    assert_eq!(interpret("1 + -").unwrap(), "1");
}

#[test]
fn unicode_whitespace_is_skipped() {
    assert_eq!(interpret("1\u{a0}+\u{2009}2").unwrap(), "3");
}

#[test]
fn sorted_sigs_put_constants_last() {
    let mut acc = ParsedExpression::new();
    acc.add_term(Vec::new(), 7);
    acc.add_term(vec![('y', 1)], 1);
    acc.add_term(vec![('x', 3)], 2);
    acc.add_term(vec![('x', 1)], 5);
    let sigs = acc.get_sorted_term_sigs();
    assert_eq!(
        sigs,
        vec![vec![('x', 3)], vec![('x', 1)], vec![('y', 1)], Vec::new()]
    );
}

#[test]
fn exponent_of_one_is_omitted_in_output() {
    assert_eq!(interpret("2x^1 + 3x").unwrap(), "5x");
    assert_eq!(interpret("x^0").unwrap(), "x^0");
}

#[test]
fn canonical_output_is_a_fixed_point() {
    let inputs = ["100x^2 + 200x + 300", "2x^3y + 2xy^3 + 2xy^2", "-6x^2", "0", "3x^-2"];
    for input in inputs {
        let once = interpret(input).unwrap();
        let twice = interpret(&once).unwrap();
        assert_eq!(once, twice);
    }
}
