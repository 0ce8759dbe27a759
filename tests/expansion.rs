use for_each_macro::{
    expand, macro_for, macro_wrap, parse_attr, parse_invocation, split_at_commas, substitute,
    Delimiter, GrammarError, Spacing, Token,
};

fn id(s: &str) -> Token {
    Token::Ident(s.to_string())
}

fn p(c: char) -> Token {
    Token::Punct(c, Spacing::Alone)
}

fn pj(c: char) -> Token {
    Token::Punct(c, Spacing::Joint)
}

fn lit(s: &str) -> Token {
    Token::Literal(s.to_string())
}

fn paren(c: Vec<Token>) -> Token {
    Token::Group(Delimiter::Parenthesis, c)
}

fn bracket(c: Vec<Token>) -> Token {
    Token::Group(Delimiter::Bracket, c)
}

fn brace(c: Vec<Token>) -> Token {
    Token::Group(Delimiter::Brace, c)
}

fn invocation(x: &str, values: Vec<Token>, body: Vec<Token>) -> Vec<Token> {
    vec![p('$'), id(x), id("in"), bracket(values), brace(body)]
}

#[test]
fn it_works() {
    let result = 2 + 2;
    assert_eq!(result, 4);
}

#[test]
fn numbers_give_one_statement_each() {
    let input = invocation(
        "number",
        vec![lit("1"), p(','), lit("2"), p(','), lit("3")],
        vec![id("print"), paren(vec![p('$'), id("number")]), p(';')],
    );
    let expected = vec![
        id("print"), paren(vec![lit("1")]), p(';'),
        id("print"), paren(vec![lit("2")]), p(';'),
        id("print"), paren(vec![lit("3")]), p(';'),
    ];
    assert_eq!(macro_for(&input), Ok(expected));
}

#[test]
fn values_may_be_statement_fragments() {
    let input = invocation(
        "s",
        vec![id("a"), p(';'), p(','), id("b"), p(';')],
        vec![p('$'), id("s"), id("c"), p(';')],
    );
    let expected = vec![id("a"), p(';'), id("c"), p(';'), id("b"), p(';'), id("c"), p(';')];
    assert_eq!(macro_for(&input), Ok(expected));
}

#[test]
fn wrap_expands_variant_list() {
    let call = paren(invocation(
        "V",
        vec![id("A"), p(','), id("B")],
        vec![p('$'), id("V"), p(',')],
    ));
    let input = vec![id("enum"), id("E"), brace(vec![id("macro_for"), p('!'), call])];
    let expected = vec![id("enum"), id("E"), brace(vec![id("A"), p(','), id("B"), p(',')])];
    assert_eq!(macro_wrap(&input), Ok(expected));
}

#[test]
fn missing_marker_is_refused() {
    let input = vec![
        id("x"), id("in"),
        bracket(vec![lit("1"), p(','), lit("2")]),
        brace(vec![]),
    ];
    assert_eq!(macro_for(&input), Err(GrammarError::UnmarkedPlaceholder));
    assert_eq!(parse_invocation(&input), Err(GrammarError::UnmarkedPlaceholder));
}

#[test]
fn output_length_follows_marked_occurrences() {
    // Body of four tokens with one marked occurrence; values of one and two tokens.
    let body = vec![p('$'), id("s"), id("c"), p(';')];
    let input = invocation("s", vec![id("a"), p(','), id("b"), p(';')], body.clone());
    let out = macro_for(&input).unwrap();
    assert_eq!(out.len(), (4 - 2 + 1) + (4 - 2 + 2));
    // A marked occurrence inside a group leaves the top level unchanged.
    let nested = vec![id("f"), paren(vec![p('$'), id("s")]), p(';')];
    let input = invocation("s", vec![id("a"), p(','), id("b"), id("c")], nested);
    assert_eq!(macro_for(&input).unwrap().len(), 3 + 3);
}

#[test]
fn copies_follow_the_order_of_values() {
    let body = vec![id("f"), paren(vec![p('$'), id("v")]), p(';')];
    let values = vec![lit("3"), p(','), lit("1"), p(','), lit("3")];
    let input = invocation("v", values, body.clone());
    let out = macro_for(&input).unwrap();
    let x = "v".to_string();
    let mut expected = substitute(&body, &x, &vec![lit("3")]);
    expected.extend(substitute(&body, &x, &vec![lit("1")]));
    expected.extend(substitute(&body, &x, &vec![lit("3")]));
    assert_eq!(out, expected);
}

#[test]
fn unmarked_placeholder_is_kept() {
    let body = vec![p('$'), id("x"), p('+'), id("x")];
    let input = invocation("x", vec![lit("1")], body);
    assert_eq!(macro_for(&input), Ok(vec![lit("1"), p('+'), id("x")]));
}

#[test]
fn substitution_keeps_groups_in_place() {
    let body = vec![
        id("a"),
        bracket(vec![p('$'), id("x"), brace(vec![p('$'), id("x")])]),
        id("b"),
    ];
    let out = substitute(&body, &"x".to_string(), &vec![lit("7"), lit("8")]);
    let expected = vec![
        id("a"),
        bracket(vec![lit("7"), lit("8"), brace(vec![lit("7"), lit("8")])]),
        id("b"),
    ];
    assert_eq!(out, expected);
}

#[test]
fn wrap_without_calls_is_identity() {
    let input = vec![
        id("match"), id("x"),
        brace(vec![id("macro_for"), paren(vec![id("a")]), id("other"), p('!'), bracket(vec![])]),
        p('!'), id("macro_for"),
    ];
    assert_eq!(macro_wrap(&input), Ok(input.clone()));
}

#[test]
fn empty_value_list_gives_one_empty_value() {
    let input = invocation("x", vec![], vec![id("a"), p('$'), id("x"), id("b")]);
    assert_eq!(macro_for(&input), Ok(vec![id("a"), id("b")]));
    assert_eq!(split_at_commas(&vec![]), vec![Vec::<Token>::new()]);
}

#[test]
fn nested_commas_do_not_split() {
    let values = vec![paren(vec![id("a"), p(','), id("b")]), p(','), id("c")];
    let split = split_at_commas(&values);
    assert_eq!(split, vec![vec![paren(vec![id("a"), p(','), id("b")])], vec![id("c")]]);
    let trailing = split_at_commas(&vec![id("a"), p(',')]);
    assert_eq!(trailing, vec![vec![id("a")], vec![]]);
}

#[test]
fn parse_attr_reads_placeholder_and_values() {
    let input = vec![p('$'), id("t"), id("in"), bracket(vec![id("u8"), p(','), id("u16")])];
    let (x, values) = parse_attr(&input).unwrap();
    assert_eq!(x, "t".to_string());
    assert_eq!(values, vec![vec![id("u8")], vec![id("u16")]]);
}

#[test]
fn parse_invocation_copies_the_body() {
    let input = invocation("t", vec![id("a")], vec![p('$'), id("t"), p(';')]);
    let inv = parse_invocation(&input).unwrap();
    assert_eq!(inv.placeholder, "t".to_string());
    assert_eq!(inv.values, vec![vec![id("a")]]);
    assert_eq!(inv.body, vec![p('$'), id("t"), p(';')]);
    assert_eq!(expand(&inv), vec![id("a"), p(';')]);
}

#[test]
fn tokens_after_the_body_are_ignored() {
    let mut input = invocation("x", vec![id("a")], vec![p('$'), id("x")]);
    input.push(id("junk"));
    input.push(p(';'));
    assert_eq!(macro_for(&input), Ok(vec![id("a")]));
}

#[test]
fn each_grammar_error_has_its_input() {
    assert_eq!(macro_for(&vec![]), Err(GrammarError::ExpectedPlaceholder));
    assert_eq!(macro_for(&vec![lit("1")]), Err(GrammarError::ExpectedPlaceholder));
    assert_eq!(
        macro_for(&vec![id("in"), bracket(vec![]), brace(vec![])]),
        Err(GrammarError::MissingPlaceholder)
    );
    assert_eq!(macro_for(&vec![p('$')]), Err(GrammarError::MissingIdentifier));
    assert_eq!(macro_for(&vec![p('$'), lit("1"), id("in")]), Err(GrammarError::MissingIdentifier));
    assert_eq!(macro_for(&vec![p('$'), id("x")]), Err(GrammarError::ExpectedIn));
    assert_eq!(macro_for(&vec![p('$'), id("x"), id("on")]), Err(GrammarError::ExpectedIn));
    assert_eq!(macro_for(&vec![p('$'), id("x"), id("in")]), Err(GrammarError::ExpectedValues));
    assert_eq!(
        macro_for(&vec![p('$'), id("x"), id("in"), paren(vec![id("a")]), brace(vec![])]),
        Err(GrammarError::ExpectedValues)
    );
    assert_eq!(
        macro_for(&vec![p('$'), id("x"), id("in"), bracket(vec![id("a")])]),
        Err(GrammarError::ExpectedBody)
    );
    assert_eq!(
        macro_for(&vec![p('$'), id("x"), id("in"), bracket(vec![id("a")]), paren(vec![])]),
        Err(GrammarError::ExpectedBody)
    );
}

#[test]
fn wrap_reports_a_malformed_call() {
    let call = paren(vec![id("x"), id("in"), bracket(vec![id("a")]), brace(vec![])]);
    let input = vec![id("enum"), id("E"), brace(vec![id("macro_for"), p('!'), call])];
    assert_eq!(macro_wrap(&input), Err(GrammarError::UnmarkedPlaceholder));
}

#[test]
fn wrap_scans_nested_groups_and_match_arms() {
    let arm_body = vec![id("Enum"), pj(':'), p(':'), p('$'), id("V"), pj('='), p('>'), lit("1"), p(',')];
    let call = brace(invocation("V", vec![id("A"), p(','), id("B")], arm_body));
    let input = vec![
        id("fn"), id("f"), paren(vec![]),
        brace(vec![id("match"), id("x"), brace(vec![id("macro_for"), p('!'), call])]),
    ];
    let arms = vec![
        id("Enum"), pj(':'), p(':'), id("A"), pj('='), p('>'), lit("1"), p(','),
        id("Enum"), pj(':'), p(':'), id("B"), pj('='), p('>'), lit("1"), p(','),
    ];
    let expected = vec![
        id("fn"), id("f"), paren(vec![]),
        brace(vec![id("match"), id("x"), brace(arms)]),
    ];
    assert_eq!(macro_wrap(&input), Ok(expected));
}

#[test]
fn wrap_does_not_rescan_an_expansion() {
    // The expansion itself spells a call; it is spliced in as it is.
    let inner = vec![id("macro_for"), p('!'), paren(vec![p('$'), id("y")])];
    let call = paren(invocation("x", vec![id("k")], inner.clone()));
    let input = vec![id("macro_for"), p('!'), call];
    assert_eq!(macro_wrap(&input), Ok(inner));
}

#[test]
fn marker_and_name_alone_are_copied() {
    let body = vec![p('$'), p('$'), id("x"), p('$')];
    let out = substitute(&body, &"x".to_string(), &vec![]);
    assert_eq!(out, vec![p('$'), p('$')]);
}

#[test]
fn duplicate_is_a_deep_copy() {
    let t = brace(vec![id("a"), paren(vec![lit("\"s\""), p('#')])]);
    assert_eq!(t.duplicate(), t);
}

#[test]
fn joint_marker_still_marks() {
    let body = vec![pj('$'), id("x"), pj('='), p('>'), id("x")];
    let out = substitute(&body, &"x".to_string(), &vec![lit("0")]);
    assert_eq!(out, vec![lit("0"), pj('='), p('>'), id("x")]);
}

#[test]
fn marker_left_by_a_value_marks_the_next_placeholder() {
    let body = vec![p('$'), id("x"), id("x")];
    let out = substitute(&body, &"x".to_string(), &vec![p('$')]);
    assert_eq!(out, vec![p('$')]);
}

#[test]
fn empty_value_uncovers_an_earlier_marker() {
    let body = vec![p('$'), p('$'), id("x"), id("x")];
    let out = substitute(&body, &"x".to_string(), &vec![]);
    assert_eq!(out, vec![]);
}

#[test]
fn invisible_group_holds_a_value_together() {
    let closure = Token::Group(
        Delimiter::Invisible,
        vec![p('|'), id("a"), p(','), id("b"), p('|'), id("a")],
    );
    let input = invocation("f", vec![closure.clone(), p(','), id("g")], vec![p('$'), id("f"), p(';')]);
    assert_eq!(macro_for(&input), Ok(vec![closure, p(';'), id("g"), p(';')]));
}
