use pratt::parse;

#[test]
fn atom_round_trips() {
    let first = parse("x1").unwrap();
    let rendered = first.render();
    let second = parse(&rendered).unwrap();
    assert_eq!(first, second);
    assert_eq!(second.render(), rendered);
}

#[test]
fn unary_chain_round_trips() {
    let first = parse("- -5").unwrap();
    let rendered = first.render();
    assert_eq!(rendered, "(- (- 5))");
    let second = parse(&rendered).unwrap();
    assert_eq!(first, second);
    assert_eq!(second.render(), rendered);
}

#[test]
fn unary_plus_round_trips() {
    let first = parse("+x").unwrap();
    let rendered = first.render();
    assert_eq!(rendered, "(+ x)");
    let second = parse(&rendered).unwrap();
    assert_eq!(first, second);
    assert_eq!(second.render(), rendered);
}
