use g_calc::{convert, CalcError};

#[test]
fn test_convert() {
    assert_eq!("1 2 +", convert("1 + 2").unwrap());
    assert_eq!("2 3 4 * +", convert("2 + 3 * 4").unwrap());
    assert_eq!(
        "0.156 2  1 2 /  ^ *  14  3 5 *  *  2 / +",
        convert("0.156 * 2 ^ (1 / 2) + (14 * ( 3* 5))/2").unwrap()
    );
}

#[test]
fn convert_nested_expression() {
    assert_eq!(
        "1 2  3 4 ^ 5 -   6 7 8 * +  ^ * + 9 -",
        convert("1+2*(3^4-5)^(6+7*8)-9").unwrap()
    );
}

#[test]
fn power_is_left_associative() {
    assert_eq!(Ok("2 3 ^ 2 ^".to_string()), convert("2^3^2"));
}

#[test]
fn equal_priority_operators_are_left_associative() {
    assert_eq!(Ok("1 2 - 3 -".to_string()), convert("1-2-3"));
    assert_eq!(Ok("8 4 / 2 /".to_string()), convert("8/4/2"));
    assert_eq!(Ok("1 2 + 3 -".to_string()), convert("1+2-3"));
    assert_eq!(Ok("2 3 * 4 /".to_string()), convert("2*3/4"));
}

#[test]
fn tighter_operators_go_first() {
    assert_eq!(Ok("1 2 3 * +".to_string()), convert("1+2*3"));
    assert_eq!(Ok("1 2 * 3 +".to_string()), convert("1*2+3"));
    assert_eq!(Ok("2 3 ^ 4 *".to_string()), convert("2^3*4"));
}

#[test]
fn longer_literals_chain_alike() {
    assert_eq!(Ok("12.5 3.25 - 1 -".to_string()), convert("12.5-3.25-1"));
    assert_eq!(Ok("10 2.5 4 * +".to_string()), convert("10+2.5*4"));
    assert_eq!(Ok("10 .5 ^ 4. ^".to_string()), convert("10^.5^4."));
}

#[test]
fn brackets_group() {
    assert_eq!(Ok("1 2 +  3 *".to_string()), convert("(1+2)*3"));
    assert_eq!(Ok("1 2 +   3 4 -  *".to_string()), convert("((1+2)*(3-4))"));
}

#[test]
fn missing_close_bracket() {
    assert_eq!(Err("Syntax error : close bracket missing"), convert("(1+2"));
    assert_eq!(Err(CalcError::CloseBracketMissing.message()), convert("(1+2"));
    assert_eq!(Err("Syntax error : close bracket missing"), convert("("));
    assert_eq!(Err("Syntax error : close bracket missing"), convert("1 + (2"));
}

#[test]
fn missing_open_bracket() {
    assert_eq!(Err("Syntax error : open bracket missing"), convert("1+2)"));
    assert_eq!(Err(CalcError::OpenBracketMissing.message()), convert("1+2)"));
    assert_eq!(Err("Syntax error : open bracket missing"), convert(")"));
}

#[test]
fn empty_or_unreadable_input() {
    assert_eq!(Err("Syntax error : wrong input provided"), convert(""));
    assert_eq!(Err(CalcError::EmptyOrInvalidExpression.message()), convert(""));
    assert_eq!(Err("Syntax error : wrong input provided"), convert("   "));
    assert_eq!(Err("Syntax error : wrong input provided"), convert("abc"));
    assert_eq!(Err("Syntax error : wrong input provided"), convert("()"));
    assert_eq!(Err("Syntax error : wrong input provided"), convert("\u{FF11}+2"));
}

#[test]
fn unknown_character_ends_the_reading() {
    assert_eq!(Ok("1 2 +".to_string()), convert("1+2a+3"));
    assert_eq!(Ok("1.5".to_string()), convert("1.5e3"));
}

#[test]
fn other_white_space_separates() {
    assert_eq!(Ok("1   2 +".to_string()), convert("1\t+\n2"));
}

#[test]
fn spaces_inside_a_literal_vanish() {
    assert_eq!(Ok("123".to_string()), convert("1 2 3"));
    assert_eq!(Ok("1".to_string()), convert(" 1 "));
}

#[test]
fn literals_are_not_validated() {
    assert_eq!(Ok("1..2 3 +".to_string()), convert("1..2 + 3"));
}

#[test]
fn an_earlier_open_bracket_is_written_out() {
    assert_eq!(Ok("1 2 + (".to_string()), convert("((1+2)"));
}

#[test]
fn operators_without_operands_pass() {
    assert_eq!(Ok("1 +".to_string()), convert("1+"));
    assert_eq!(Ok("+".to_string()), convert("+"));
}

#[test]
fn error_messages() {
    assert_eq!("Syntax error : open bracket missing", CalcError::OpenBracketMissing.message());
    assert_eq!("Syntax error : close bracket missing", CalcError::CloseBracketMissing.message());
    assert_eq!(
        "Syntax error : wrong input provided",
        CalcError::EmptyOrInvalidExpression.message()
    );
    assert_eq!("Parse error : invalid number", CalcError::InvalidNumber.message());
    assert_eq!("Syntax error : wrong value entered", CalcError::MissingOperand.message());
    assert_eq!("Divide by zero error", CalcError::DivideByZero.message());
}
