use g_calc::{classify, convert, finish, step, tokens, Action, CalcError, Operator, TokenKind};

fn solve(postfix_expr: &str) -> Result<f64, &'static str> {
    let mut stack: Vec<f64> = Vec::new();
    for token in tokens(postfix_expr).iter() {
        match step(stack.len(), classify(token)) {
            Err(e) => return Err(e.message()),
            Ok(Action::Push) => match token.parse::<f64>() {
                Ok(v) => stack.push(v),
                Err(_) => return Err(CalcError::InvalidNumber.message()),
            },
            Ok(Action::Discard) => {
                stack.pop();
                stack.pop();
            }
            Ok(Action::Apply(op)) => {
                let num2 = stack.pop().unwrap();
                let num1 = stack.pop().unwrap();
                match op {
                    Operator::Add => stack.push(num1 + num2),
                    Operator::Subtract => stack.push(num1 - num2),
                    Operator::Multiply => stack.push(num1 * num2),
                    Operator::Divide => {
                        if num2 == 0.0 {
                            return Err(CalcError::DivideByZero.message());
                        }
                        stack.push(num1 / num2)
                    }
                    Operator::Power => stack.push(f64::powf(num1, num2)),
                }
            }
        }
    }
    match finish(stack.len()) {
        Ok(()) => Ok(stack.pop().unwrap()),
        Err(e) => Err(e.message()),
    }
}

#[test]
fn test_solve() {
    assert_eq!(3.00, solve("1 2 +").unwrap());
    assert_eq!(14.00, solve("2 3 4 * +").unwrap());
    assert_eq!(
        105.22061731573021,
        solve("0.156 2 1 2 / ^ * 14 3 5 * * 2 / +").unwrap()
    );
}

#[test]
fn solve_after_convert() {
    let postfix = convert("0.156 * 2 ^ (1 / 2) + (14 * ( 3* 5))/2").unwrap();
    assert_eq!(105.22061731573021, solve(&postfix).unwrap());
    assert_eq!(-3.0, solve(&convert("((1+2)*(3-4))").unwrap()).unwrap());
    assert_eq!(64.0, solve(&convert("2^3^2").unwrap()).unwrap());
    assert_eq!(
        8.155915490338936e116,
        solve("1 2  3 4 ^ 5 -   6 7 8 * +  ^ * + 9 -").unwrap()
    );
}

#[test]
fn bracketed_expressions_keep_their_value() {
    assert_eq!((1.0 + 2.0) * (3.0 - 4.0), solve(&convert("((1+2)*(3-4))").unwrap()).unwrap());
    assert_eq!(512.0, solve(&convert("(2^(3^2))").unwrap()).unwrap());
    assert_eq!((8.0 / 4.0) / 2.0, solve(&convert("((8/4)/2)").unwrap()).unwrap());
    assert_eq!(8.0 / (4.0 / 2.0), solve(&convert("(8/(4/2))").unwrap()).unwrap());
    assert_eq!(1.5 + 2.25, solve(&convert("(1.5+2.25)").unwrap()).unwrap());
    assert_eq!(42.0, solve(&convert("42").unwrap()).unwrap());
}

#[test]
fn bracketed_expressions_come_out_in_postfix_order() {
    assert_eq!(
        vec!["1", "2", "+", "3", "4", "-", "*"],
        tokens(&convert("((1+2)*(3-4))").unwrap())
    );
    assert_eq!(vec!["2", "3", "2", "^", "^"], tokens(&convert("(2^(3^2))").unwrap()));
    assert_eq!(vec![".5"], tokens(&convert(".5").unwrap()));
}

#[test]
fn divide_by_zero() {
    assert_eq!(Err("Divide by zero error"), solve("4 0 /"));
}

#[test]
fn invalid_number() {
    assert_eq!(Err("Parse error : invalid number"), solve("1..2"));
    assert_eq!(Err("Parse error : invalid number"), solve("1 . +"));
}

#[test]
fn missing_operand() {
    assert_eq!(Err("Syntax error : wrong value entered"), solve("+"));
    assert_eq!(Err("Syntax error : wrong value entered"), solve("1 +"));
    assert_eq!(Err("Syntax error : wrong value entered"), solve("1 2 + *"));
    assert_eq!(Err("Syntax error : wrong value entered"), solve("1 x"));
}

#[test]
fn nothing_to_evaluate() {
    assert_eq!(Err("Syntax error : wrong value entered"), solve(""));
    assert_eq!(Err("Syntax error : wrong value entered"), solve("  \t "));
    assert_eq!(Err("Syntax error : wrong value entered"), solve("1 2 x"));
}

#[test]
fn unknown_symbol_drops_two_values() {
    assert_eq!(7.0, solve("7 1 2 x").unwrap());
}

#[test]
fn tokens_are_the_words() {
    assert_eq!(vec!["1", "2", "+"], tokens("1 2 +"));
    assert_eq!(vec!["0.156", "2", "1", "2", "/", "^"], tokens("0.156 2  1 2 /  ^"));
    assert_eq!(vec!["12", "+-"], tokens("\t12\n+-\r"));
    assert_eq!(vec!["a", "b", "c"], tokens("a\u{A0}b\u{2003}c\u{3000}"));
    assert_eq!(vec!["a\u{200B}b"], tokens("a\u{200B}b"));
    assert!(tokens("").is_empty());
    assert!(tokens(" \u{85} ").is_empty());
}

#[test]
fn tokens_agree_with_the_standard_split() {
    let inputs = [
        "1 2 +",
        "  x  yz ",
        "",
        "\u{1680}1\u{2028}2\u{2029}3\u{202F}4\u{205F}5",
        "a\u{B}b\u{C}c",
    ];
    for s in inputs.iter() {
        let expected: Vec<String> = s.split_whitespace().map(|t| t.to_string()).collect();
        assert_eq!(expected, tokens(s));
    }
}

#[test]
fn classify_tells_numbers_from_symbols() {
    assert_eq!(TokenKind::Number, classify("12.5"));
    assert_eq!(TokenKind::Number, classify("7"));
    assert_eq!(TokenKind::Number, classify("5."));
    assert_eq!(TokenKind::Number, classify(".5"));
    assert_eq!(TokenKind::Malformed, classify("1..2"));
    assert_eq!(TokenKind::Malformed, classify("1.2.3"));
    assert_eq!(TokenKind::Malformed, classify("."));
    assert_eq!(TokenKind::Malformed, classify(""));
    assert_eq!(TokenKind::Symbol('+'), classify("+"));
    assert_eq!(TokenKind::Symbol('1'), classify("1a"));
    assert_eq!(TokenKind::Symbol('-'), classify("-5"));
    assert_eq!(TokenKind::Symbol('\u{FF11}'), classify("\u{FF11}"));
}

#[test]
fn numbers_are_what_parses_as_a_float() {
    let words = [
        "0", "1", "1.", ".1", ".", "..", "1..2", "1.2.3", "", "0001.5000", "12.", ".12.", "..1",
        "1.1.", "123456789012345678901234567890.5", "00", "9.9", ".0.",
    ];
    for w in words.iter() {
        assert_eq!(w.parse::<f64>().is_ok(), classify(w) == TokenKind::Number, "{:?}", w);
        assert_eq!(w.parse::<f64>().is_err(), classify(w) == TokenKind::Malformed, "{:?}", w);
    }
}

#[test]
fn step_decides_by_depth_and_symbol() {
    assert_eq!(Ok(Action::Push), step(0, TokenKind::Number));
    assert_eq!(Err(CalcError::InvalidNumber), step(0, TokenKind::Malformed));
    assert_eq!(Err(CalcError::InvalidNumber), step(4, TokenKind::Malformed));
    assert_eq!(Ok(Action::Push), step(5, TokenKind::Number));
    assert_eq!(Err(CalcError::MissingOperand), step(0, TokenKind::Symbol('+')));
    assert_eq!(Err(CalcError::MissingOperand), step(1, TokenKind::Symbol('x')));
    assert_eq!(Ok(Action::Apply(Operator::Add)), step(2, TokenKind::Symbol('+')));
    assert_eq!(Ok(Action::Apply(Operator::Subtract)), step(2, TokenKind::Symbol('-')));
    assert_eq!(Ok(Action::Apply(Operator::Multiply)), step(3, TokenKind::Symbol('*')));
    assert_eq!(Ok(Action::Apply(Operator::Divide)), step(2, TokenKind::Symbol('/')));
    assert_eq!(Ok(Action::Apply(Operator::Power)), step(9, TokenKind::Symbol('^')));
    assert_eq!(Ok(Action::Discard), step(2, TokenKind::Symbol('x')));
    assert_eq!(Ok(Action::Discard), step(2, TokenKind::Symbol('(')));
}

#[test]
fn finish_wants_a_value() {
    assert_eq!(Err(CalcError::MissingOperand), finish(0));
    assert_eq!(Ok(()), finish(1));
    assert_eq!(Ok(()), finish(3));
}
