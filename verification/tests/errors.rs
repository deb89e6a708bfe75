use pratt::{parse, ParseError};

#[test]
fn empty_input_is_unexpected_end_of_input() {
    assert_eq!(parse("").unwrap_err(), ParseError::UnexpectedEndOfInput);
}

#[test]
fn blank_input_is_unexpected_end_of_input() {
    assert_eq!(parse("  \t ").unwrap_err(), ParseError::UnexpectedEndOfInput);
}

#[test]
fn trailing_operator_is_unexpected_end_of_input() {
    assert_eq!(parse("1 +").unwrap_err(), ParseError::UnexpectedEndOfInput);
}

#[test]
fn unclosed_group_is_unmatched_parenthesis() {
    assert_eq!(parse("(1 + 2").unwrap_err(), ParseError::UnmatchedParenthesis);
}

#[test]
fn adjacent_symbols_are_unexpected_token() {
    assert_eq!(parse("1 2").unwrap_err(), ParseError::UnexpectedToken);
}

#[test]
fn star_in_prefix_position_is_unexpected_prefix_operator() {
    assert_eq!(parse("* 1").unwrap_err(), ParseError::UnexpectedPrefixOperator);
}

#[test]
fn slash_in_prefix_position_is_unexpected_prefix_operator() {
    assert_eq!(parse("/ 1").unwrap_err(), ParseError::UnexpectedPrefixOperator);
}

#[test]
fn bare_close_paren_is_unexpected_prefix_operator() {
    assert_eq!(parse(")").unwrap_err(), ParseError::UnexpectedPrefixOperator);
}

#[test]
fn empty_group_is_unexpected_prefix_operator() {
    assert_eq!(parse("()").unwrap_err(), ParseError::UnexpectedPrefixOperator);
}

#[test]
fn error_inside_group_propagates() {
    assert_eq!(parse("(1 2)").unwrap_err(), ParseError::UnexpectedToken);
}
