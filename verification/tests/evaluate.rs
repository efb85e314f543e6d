use cord::plan::{BinaryOp, UnaryOp};
use cord::{plan_tokens, produce_tokens, Error, ParseExpr, ResolveStep, Resolver, Step, Token};

/// Carries out an evaluation plan with a floating-point value stack. The
/// library proves its plans leave exactly one value; the checks here are
/// defensive only.
fn run_plan(steps: &[Step]) -> Result<f32, String> {
    let mut stack: Vec<f32> = Vec::new();
    for s in steps {
        match s {
            Step::Push(text) => match text.parse::<f32>() {
                Ok(v) => stack.push(v),
                Err(_) => return Err("invalid numeral".to_string()),
            },
            Step::Unary(u) => {
                let x = stack.pop().ok_or_else(|| "stack underflow".to_string())?;
                stack.push(match u {
                    UnaryOp::Negate => -x,
                    UnaryOp::Identity => x,
                    UnaryOp::Sin => x.sin(),
                    UnaryOp::Cos => x.cos(),
                    UnaryOp::Tan => x.tan(),
                    UnaryOp::Ln => x.ln(),
                    UnaryOp::Log10 => x.log10(),
                });
            }
            Step::Binary(b) => {
                let r = stack.pop().ok_or_else(|| "stack underflow".to_string())?;
                let l = stack.pop().ok_or_else(|| "stack underflow".to_string())?;
                stack.push(match b {
                    BinaryOp::Add => l + r,
                    BinaryOp::Sub => l - r,
                    BinaryOp::Mul => l * r,
                    BinaryOp::Div => l / r,
                    BinaryOp::Pow => l.powf(r),
                });
            }
        }
    }
    if stack.len() == 1 {
        Ok(stack[0])
    } else {
        Err("unbalanced plan".to_string())
    }
}

fn evaluate_with<F: FnMut(char) -> String>(expr: &str, mut provider: F) -> Result<f32, String> {
    let toks = produce_tokens(expr.to_string()).map_err(|e| e.message().to_string())?;
    let mut r = Resolver::new(toks);
    loop {
        match r.advance() {
            ResolveStep::Finished => break,
            ResolveStep::NeedValue(id) => {
                let v = provider(id);
                r.supply(id, &v).map_err(|e| e.message().to_string())?;
            }
        }
    }
    let resolved = r.into_tokens();
    let steps = plan_tokens(&resolved).map_err(|e| match e {
        Error::Lex(l) => l.message().to_string(),
        Error::Resolve(l) => l.message().to_string(),
        Error::Parse(l) => l.message().to_string(),
        Error::Eval(l) => l.message().to_string(),
    })?;
    run_plan(&steps)
}

fn evaluate(expr: &str) -> Result<f32, String> {
    evaluate_with(expr, |_| panic!("no variables expected"))
}

#[test]
fn test_complex_arithmetic_expressions() {
    assert_eq!(evaluate("(3 * 4) + (2 * 5) - 6").unwrap(), 16.0);
    assert_eq!(evaluate("((10 + 5) * 2 - 3) / 4").unwrap(), 6.75);
    assert_eq!(evaluate("3 + 4 * 2 / ( 1 - 5 )").unwrap(), 1.0);
}

#[test]
fn test_nested_expressions() {
    assert_eq!(evaluate("(2 + 3) * (4 - 1)").unwrap(), 15.0);
    assert_eq!(evaluate("10 + (5 * (3 - 1))").unwrap(), 20.0);
}

#[test]
fn test_trigonometric_expressions() {
    assert_eq!(evaluate("(3 * 4) + sin(45)").unwrap(), 12.8509035);
    assert_eq!(evaluate("cos(0) + (2 * 3)").unwrap(), 7.0);
}

#[test]
fn test_error_cases() {
    assert!(evaluate("invalid expression").is_err());
    assert!(evaluate("").is_err());
}

#[test]
fn test_variable_queried_once_and_cached() {
    let mut queries = 0;
    let result = evaluate_with("a + a", |id| {
        assert_eq!(id, 'a');
        queries += 1;
        "5".to_string()
    });
    assert_eq!(result.unwrap(), 10.0);
    assert_eq!(queries, 1);
}

#[test]
fn test_distinct_variables_queried_separately() {
    let mut queries = Vec::new();
    let result = evaluate_with("a * b + a", |id| {
        queries.push(id);
        if id == 'a' {
            "3".to_string()
        } else {
            "4".to_string()
        }
    });
    assert_eq!(result.unwrap(), 15.0);
    assert_eq!(queries, vec!['a', 'b']);
}

#[test]
fn test_variable_value_with_exponent_and_sign() {
    let result = evaluate_with("x * 2", |_| " -2.5e1\n".to_string());
    assert_eq!(result.unwrap(), -50.0);
}

#[test]
fn test_variable_value_not_numeric() {
    let result = evaluate_with("x + 1", |_| "pi".to_string());
    assert_eq!(result.unwrap_err(), "variable value is not a number");
}

#[test]
fn test_division_by_zero_is_infinite() {
    let v = evaluate("1/0").unwrap();
    assert!(v.is_infinite());
    assert!(v > 0.0);
}

#[test]
fn test_zero_to_negative_power_is_infinite() {
    let v = evaluate("0^(-1)").unwrap();
    assert!(v.is_infinite());
}

#[test]
fn test_unclosed_bracket_is_a_parse_failure() {
    assert_eq!(evaluate("(1 + 2").unwrap_err(), "unclosed bracket");
}

#[test]
fn test_empty_input_is_a_parse_failure() {
    assert_eq!(evaluate("").unwrap_err(), "parser failed");
}

#[test]
fn test_unrecognized_character() {
    assert_eq!(evaluate("1 @ 2").unwrap_err(), "unrecognized character");
}

#[test]
fn test_long_identifier_rejected() {
    assert_eq!(
        evaluate("ab + 1").unwrap_err(),
        "variable identifier must be exactly one character"
    );
    assert_eq!(
        evaluate("a1 + 1").unwrap_err(),
        "variable identifier must be exactly one character"
    );
}

#[test]
fn test_numeral_with_two_dots_rejected() {
    assert_eq!(evaluate("1.2.3").unwrap_err(), "malformed numeric literal");
}

#[test]
fn test_numeral_with_one_dot_accepted() {
    assert_eq!(evaluate("2.5 * 4").unwrap(), 10.0);
    assert_eq!(evaluate("7. + 1").unwrap(), 8.0);
}

#[test]
fn test_brackets_interchangeable() {
    assert_eq!(evaluate("[1 + 2] * (3 - 1]").unwrap(), 6.0);
    assert_eq!(evaluate("[1 + 2) * 3").unwrap(), 9.0);
}

#[test]
fn test_unary_operators_stack() {
    assert_eq!(evaluate("--3").unwrap(), 3.0);
    assert_eq!(evaluate("+-3").unwrap(), -3.0);
    assert_eq!(evaluate("2 - -3").unwrap(), 5.0);
}

#[test]
fn test_power_chain_folds_left() {
    assert_eq!(evaluate("2^2^3").unwrap(), 64.0);
}

#[test]
fn test_natural_and_base_ten_logs() {
    assert_eq!(evaluate("log(100)").unwrap(), 2.0);
    assert_eq!(evaluate("ln(1)").unwrap(), 0.0);
}

#[test]
fn test_trailing_tokens_ignored() {
    assert_eq!(evaluate("1 2").unwrap(), 1.0);
    assert_eq!(evaluate("3 + 4 )").unwrap(), 7.0);
}

#[test]
fn test_whitespace_skipped() {
    assert_eq!(evaluate(" 1 \r\n + 2 ").unwrap(), 3.0);
}

#[test]
fn test_produce_tokens_classifies() {
    let toks = produce_tokens("cos(0) + x".to_string()).unwrap();
    assert_eq!(
        toks,
        vec![
            Token::Cos,
            Token::LeftParen,
            Token::Number("0".to_string()),
            Token::RightParen,
            Token::Plus,
            Token::Variable('x'),
        ]
    );
}

#[test]
fn test_plan_is_post_order() {
    let toks = produce_tokens("1 + 2 * 3".to_string()).unwrap();
    let steps = plan_tokens(&toks).unwrap();
    assert_eq!(
        steps,
        vec![
            Step::Push("1".to_string()),
            Step::Push("2".to_string()),
            Step::Push("3".to_string()),
            Step::Binary(BinaryOp::Mul),
            Step::Binary(BinaryOp::Add),
        ]
    );
}

#[test]
fn test_plan_rejects_invalid_binary_operator() {
    let bad = ParseExpr::Binary(
        Box::new(ParseExpr::Value(Token::Number("1".to_string()))),
        Token::LeftParen,
        Box::new(ParseExpr::Value(Token::Number("2".to_string()))),
    );
    assert_eq!(bad.plan().unwrap_err(), cord::EvalError::InvalidBinary);
}

#[test]
fn test_plan_rejects_invalid_unary_operator() {
    let bad = ParseExpr::Unary(
        Token::Star,
        Box::new(ParseExpr::Value(Token::Number("2".to_string()))),
    );
    assert_eq!(bad.plan().unwrap_err(), cord::EvalError::InvalidUnary);
}

#[test]
fn test_plan_rejects_invalid_value_node() {
    let bad = ParseExpr::Value(Token::Variable('x'));
    assert_eq!(bad.plan().unwrap_err(), cord::EvalError::InvalidValue);
}

#[test]
fn test_resolver_accepts_infinity_text() {
    let result = evaluate_with("x + 1", |_| "inf".to_string());
    let v = result.unwrap();
    assert!(v.is_infinite());
}

#[test]
fn test_function_applies_to_immediate_operand() {
    // cos binds to its operand only: cos(0) + 6, not cos(0 + 6).
    assert_eq!(evaluate("cos(0) + (2 * 3)").unwrap(), 7.0);
    assert_eq!(evaluate("cos 0 + 6").unwrap(), 7.0);
}

#[test]
fn test_resolver_keeps_first_binding() {
    let toks = produce_tokens("a".to_string()).unwrap();
    let mut r = Resolver::new(toks);
    assert_eq!(r.advance(), ResolveStep::NeedValue('a'));
    assert!(r.supply('a', "5").is_ok());
    // A later value for the same identifier does not replace the first.
    assert!(r.supply('a', "7").is_ok());
    assert_eq!(r.advance(), ResolveStep::Finished);
    assert_eq!(r.into_tokens(), vec![Token::Number("5".to_string())]);
}

#[test]
fn test_resolver_rejects_bad_text_and_state_stands() {
    let toks = produce_tokens("a".to_string()).unwrap();
    let mut r = Resolver::new(toks);
    assert_eq!(r.advance(), ResolveStep::NeedValue('a'));
    assert_eq!(r.supply('a', "five").unwrap_err(), cord::ResolveError::NotNumeric);
    assert_eq!(r.advance(), ResolveStep::NeedValue('a'));
    assert!(r.supply('a', " 5 ").is_ok());
    assert_eq!(r.advance(), ResolveStep::Finished);
    assert_eq!(r.into_tokens(), vec![Token::Number("5".to_string())]);
}

#[test]
fn test_lex_error_kinds() {
    assert_eq!(
        produce_tokens("1.2.3".to_string()).unwrap_err(),
        cord::LexError::MalformedNumber
    );
    assert_eq!(
        produce_tokens("speed".to_string()).unwrap_err(),
        cord::LexError::VariableTooLong
    );
    assert_eq!(
        produce_tokens("1 ? 2".to_string()).unwrap_err(),
        cord::LexError::UnrecognizedChar
    );
}

#[test]
fn test_parse_error_kinds() {
    let unclosed = produce_tokens("(1 + 2".to_string()).unwrap();
    assert_eq!(
        plan_tokens(&unclosed).unwrap_err(),
        Error::Parse(cord::ParseError::UnclosedBracket)
    );
    let empty = produce_tokens("".to_string()).unwrap();
    assert!(empty.is_empty());
    assert_eq!(
        plan_tokens(&empty).unwrap_err(),
        Error::Parse(cord::ParseError::Failed)
    );
}
