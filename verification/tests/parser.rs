use pratt::parse;

#[test]
fn test_infix() {
    let s = parse("1 + 2 * 3").unwrap();
    assert_eq!(s.render(), "(+ 1 (* 2 3))");

    let s = parse("1 * 2 + 3").unwrap();
    assert_eq!(s.render(), "(+ (* 1 2) 3)");
}

#[test]
fn test_prefix() {
    let s = parse("-1*2 + 3").unwrap();
    assert_eq!(s.render(), "(+ (* (- 1) 2) 3)");
}

#[test]
fn test_group() {
    let s = parse("(-1+2) * 3").unwrap();
    assert_eq!(s.render(), "(* (+ (- 1) 2) 3)");

    let s = parse("( -1 + 2 ) * 3 - -4").unwrap();
    assert_eq!(s.render(), "(- (* (+ (- 1) 2) 3) (- 4))");
}

#[test]
fn left_associative_subtraction() {
    let s = parse("1 - 2 - 3").unwrap();
    assert_eq!(s.render(), "(- (- 1 2) 3)");
}

#[test]
fn left_associative_division() {
    let s = parse("1 / 2 / 3").unwrap();
    assert_eq!(s.render(), "(/ (/ 1 2) 3)");
}

#[test]
fn division_binds_like_multiplication() {
    let s = parse("1 + 6 / 2").unwrap();
    assert_eq!(s.render(), "(+ 1 (/ 6 2))");
}

#[test]
fn unary_plus() {
    let s = parse("+1").unwrap();
    assert_eq!(s.render(), "(+ 1)");
}

#[test]
fn unary_in_infix_position() {
    let s = parse("1 + +2").unwrap();
    assert_eq!(s.render(), "(+ 1 (+ 2))");
}

#[test]
fn multi_character_symbols() {
    let s = parse("foo + bar12").unwrap();
    assert_eq!(s.render(), "(+ foo bar12)");
}

#[test]
fn operators_split_adjacent_symbols() {
    let s = parse("ab*cd").unwrap();
    assert_eq!(s.render(), "(* ab cd)");
}

#[test]
fn whitespace_does_not_matter() {
    let tight = parse("1+2").unwrap();
    let loose = parse(" \t1 +\n2 ").unwrap();
    assert_eq!(tight.render(), "(+ 1 2)");
    assert_eq!(loose.render(), "(+ 1 2)");
    assert_eq!(tight, loose);
}

#[test]
fn single_atom() {
    let s = parse("42").unwrap();
    assert_eq!(s.render(), "42");
}

#[test]
fn tokens_after_stray_close_paren_are_ignored() {
    let s = parse("1 ) 2").unwrap();
    assert_eq!(s.render(), "1");
}

#[test]
fn nested_groups() {
    let s = parse("((1 + 2)) * (3 - 4)").unwrap();
    assert_eq!(s.render(), "(* (+ 1 2) (- 3 4))");
}
