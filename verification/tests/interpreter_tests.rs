use polycanon::errors::InterpreterError;
use polycanon::interpreter::Interpreter;
use polycanon::lexer::Token;
use polycanon::parser::ASTNode;

fn lex(input: &str) -> Result<Vec<Token>, InterpreterError> {
    let mut interpreter = Interpreter::new();
    interpreter.lex(input)
}

fn parse(tokens: Vec<Token>) -> Result<ASTNode, InterpreterError> {
    let mut interpreter = Interpreter::new();
    interpreter.parse(tokens)
}

fn interpret(input: &str) -> Result<String, InterpreterError> {
    let interpreter = Interpreter::new();
    interpreter.interpret(parse(lex(input)?)?)
}

#[test]
fn full_basic_test() {
    let output = interpret("1 + 2").expect("Interpretation failed");

    assert_eq!(output, "3");
}

#[test]
fn lexer_basic_test() {
    let tokens = lex("1 + 2").unwrap();

    assert_eq!(tokens.len(), 3);
    assert_eq!(tokens[0], Token::Number(1));
    assert_eq!(tokens[1], Token::Symbol('+'));
    assert_eq!(tokens[2], Token::Number(2));
}

#[test]
fn parser_basic_test() {
    let ast = parse(lex("1 + 2").unwrap()).unwrap();

    assert_eq!(
        ast,
        ASTNode::Expression(vec![
            ASTNode::Term(Box::new(ASTNode::Number(1)), Vec::new()),
            ASTNode::Term(Box::new(ASTNode::Number(2)), Vec::new()),
        ])
    );
}

#[test]
fn empty_input_test() {
    let output = interpret("").unwrap();
    assert!(output.is_empty());
}

#[test]
fn same_order_input_output_test() {
    let input = "100x^2 + 200x + 300";

    let output = interpret(input).unwrap();

    assert_eq!(output, input);
}

#[test]
fn sort_terms_test() {
    let expected = "100x^2 + 200x + 300";

    let input = "200x + 100x^2 + 300";
    let input1 = "300 + 200x + 100x^2";
    let input2 = "300 + 100x^2 + 200x";

    let output = interpret(input).unwrap();
    let output1 = interpret(input1).unwrap();
    let output2 = interpret(input2).unwrap();

    assert_eq!(output, expected);
    assert_eq!(output1, expected);
    assert_eq!(output2, expected);
}

#[test]
fn multiple_variables_test() {
    let input = "x^2 + xy + y^2";
    let input1 = "y^2 + xy + x^2";
    let input2 = "y^2 + x^2 + xy";
    let input3 = "xy + y^2 + x^2";

    let output = interpret(input).unwrap();
    let output1 = interpret(input1).unwrap();
    let output2 = interpret(input2).unwrap();
    let output3 = interpret(input3).unwrap();

    assert_eq!(output, input);
    assert_eq!(output1, input);
    assert_eq!(output2, input);
    assert_eq!(output3, input);
}

#[test]
fn multiple_variables_with_coefficients_test() {
    let input = "2x^2 + 2xy + 2y^2";
    let input1 = "2y^2 + 2xy + 2x^2";
    let input2 = "2y^2 + 2x^2 + 2xy";
    let input3 = "2xy + 2y^2 + 2x^2";

    let output = interpret(input).unwrap();
    let output1 = interpret(input1).unwrap();
    let output2 = interpret(input2).unwrap();
    let output3 = interpret(input3).unwrap();

    assert_eq!(output, input);
    assert_eq!(output1, input);
    assert_eq!(output2, input);
    assert_eq!(output3, input);
}

#[test]
fn multiple_variables_with_coefficients_and_exponents_test() {
    let expected = "2x^3y + 2xy^3 + 2xy^2";

    let input = "2xy^3 + 2xy^2 + 2yx^3";
    let input1 = "2yx^3 + 2xy^2 + 2xy^3";
    let input2 = "2yx^3 + 2xy^3 + 2xy^2";
    let input3 = "2xy^2 + 2yx^3 + 2xy^3";

    let output = interpret(input).unwrap();
    let output1 = interpret(input1).unwrap();
    let output2 = interpret(input2).unwrap();
    let output3 = interpret(input3).unwrap();

    assert_eq!(output, expected);
    assert_eq!(output1, expected);
    assert_eq!(output2, expected);
    assert_eq!(output3, expected);
}

#[test]
fn sort_alphabetically_test() {
    let input = "xyz";
    let input1 = "yxz";
    let input2 = "yzx";
    let input3 = "xzy";

    let output = interpret(input).unwrap();
    let output1 = interpret(input1).unwrap();
    let output2 = interpret(input2).unwrap();
    let output3 = interpret(input3).unwrap();

    assert_eq!(output, input);
    assert_eq!(output1, input);
    assert_eq!(output2, input);
    assert_eq!(output3, input);
}

#[test]
fn combine_like_terms_test() {
    let input = "2x^2 + 2x^2 + 2x^2";
    let input1 = "2y^2 + 2y^2 + 2y^2";
    let input2 = "2y^2 + 2y^2 + 2x^2";
    let input3 = "2x^2 + 2x^2 + 2y^2";

    let output = interpret(input).unwrap();
    let output1 = interpret(input1).unwrap();
    let output2 = interpret(input2).unwrap();
    let output3 = interpret(input3).unwrap();

    assert_eq!(output, "6x^2");
    assert_eq!(output1, "6y^2");
    assert_eq!(output2, "2x^2 + 4y^2");
    assert_eq!(output3, "4x^2 + 2y^2");
}

#[test]
fn negative_coefficients_test() {
    let input = "-2x^2 + -2x^2 + -2x^2";

    let output = interpret(input).unwrap();

    assert_eq!(output, "-6x^2");
}

#[test]
fn negative_exponents_test() {
    let input = "x^-2 + x^-2 + x^-2";

    let output = interpret(input).unwrap();

    assert_eq!(output, "3x^-2");
}

#[test]
fn zero_test() {
    let input = "0";
    let input1 = "0x";
    let input2 = "0x^0";
    let input3 = "0x + 0";
    let input4 = "0x^0 + 0y + 0";

    let output = interpret(input).unwrap();
    let output1 = interpret(input1).unwrap();
    let output2 = interpret(input2).unwrap();
    let output3 = interpret(input3).unwrap();
    let output4 = interpret(input4).unwrap();

    assert_eq!(output, "0");
    assert_eq!(output1, "0");
    assert_eq!(output2, "0");
    assert_eq!(output3, "0");
    assert_eq!(output4, "0");
}

#[test]
fn subtractive_terms_test() {
    let input = "-1x - 1x - 1x";
    let input2 = "-1x + -1x + -1x";
    let input3 = "-1x + -1x - +1x";

    let input4 = "---1x ---1x ---1x";

    let expected = "-3x";

    let output = interpret(input).unwrap();
    let output2 = interpret(input2).unwrap();
    let output3 = interpret(input3).unwrap();
    let output4 = interpret(input4).unwrap();

    assert_eq!(output, expected);
    assert_eq!(output2, expected);
    assert_eq!(output3, expected);
    assert_eq!(output4, expected);
}

#[test]
fn error_test() {
    let input = "-";
    let mut max_string = f64::MAX.to_string();
    max_string.push('0');
    let input1 = max_string.as_str();

    let output = interpret(input).unwrap();
    let output1 = interpret(input1);

    // A bare sign run is a term with a zero constant, so it renders as "0".
    assert_eq!(output, "0");
    assert!(output1.is_err());
}
