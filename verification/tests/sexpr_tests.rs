use sexpr::ast::{Exp, Location, ParseError, Token};
use sexpr::lexer::tokenize;
use sexpr::parser::{find_exp_end, parse_expression, parse_top_level};

fn sym(content: &str, line: usize, column: usize) -> Token {
    Token::Symbol { content: content.to_string(), location: Location::new(line, column) }
}

fn atom(content: &str, line: usize, column: usize) -> Exp {
    Exp::Atom { token: sym(content, line, column) }
}

#[test]
fn empty_input_lexes_to_nothing() {
    assert_eq!(tokenize(""), vec![]);
}

#[test]
fn empty_range_parses_to_nil() {
    let tokens = tokenize("");
    assert_eq!(parse_expression(&tokens, 0, 0).unwrap(), Exp::Nil);
}

#[test]
fn lexes_parens_and_symbols_with_locations() {
    let tokens = tokenize("(a)");
    assert_eq!(
        tokens,
        vec![
            Token::LParen { location: Location::new(1, 1) },
            sym("a", 1, 2),
            Token::RParen { location: Location::new(1, 3) },
        ]
    );
}

#[test]
fn empty_list_parses_to_nil() {
    let tokens = tokenize("()");
    let exp = parse_expression(&tokens, 0, tokens.len()).unwrap();
    assert_eq!(exp, Exp::Nil);
}

#[test]
fn singleton_list_parses_to_list_of_one_atom() {
    let tokens = tokenize("(a)");
    let exp = parse_expression(&tokens, 0, tokens.len()).unwrap();
    assert_eq!(exp, Exp::List { contents: vec![atom("a", 1, 2)] });
}

#[test]
fn nested_list_parses_to_nested_tree() {
    let tokens = tokenize("(a (b c))");
    let exp = parse_expression(&tokens, 0, tokens.len()).unwrap();
    assert_eq!(
        exp,
        Exp::List {
            contents: vec![
                atom("a", 1, 2),
                Exp::List { contents: vec![atom("b", 1, 5), atom("c", 1, 7)] },
            ],
        }
    );
}

#[test]
fn bare_symbol_parses_to_atom_through_top_level() {
    let tokens = tokenize("hello");
    let exps = parse_top_level(&tokens).unwrap();
    assert_eq!(exps, vec![atom("hello", 1, 1)]);
}

#[test]
fn two_bare_symbols_fail_as_a_single_range() {
    let tokens = tokenize("a b");
    let err = parse_expression(&tokens, 0, tokens.len()).unwrap_err();
    assert_eq!(err.message, "Invalid expression");
    // The scan reports the first atom it meets outside a list.
    assert_eq!(err.location, Location::new(1, 1));
}

#[test]
fn two_bare_symbols_are_two_top_level_forms() {
    let tokens = tokenize("a b");
    let exps = parse_top_level(&tokens).unwrap();
    assert_eq!(exps, vec![atom("a", 1, 1), atom("b", 1, 3)]);
}

#[test]
fn missing_close_is_reported() {
    let tokens = tokenize("(a");
    let err = parse_expression(&tokens, 0, tokens.len()).unwrap_err();
    assert_eq!(err.message, "Missing closing parentheses");
    assert_eq!(err.location, Location::new(1, 2));
}

#[test]
fn stray_close_is_reported_at_its_location() {
    let tokens = tokenize("a)");
    let err = parse_top_level(&tokens).unwrap_err();
    assert_eq!(err.message, "Unexpected closing parentheses");
    assert_eq!(err.location, Location::new(1, 2));
}

#[test]
fn bare_atom_before_stray_close_fails_a_single_range() {
    // Over a single range, the bare atom is met first, so the range is
    // rejected as an invalid expression before the stray close is reached.
    let tokens = tokenize("a)");
    let err = parse_expression(&tokens, 0, tokens.len()).unwrap_err();
    assert_eq!(err.message, "Invalid expression");
    assert_eq!(err.location, Location::new(1, 1));
}

#[test]
fn extra_close_fails_a_single_range() {
    let tokens = tokenize("())");
    let err = parse_expression(&tokens, 0, tokens.len()).unwrap_err();
    assert_eq!(err.message, "Unexpected closing parentheses");
    assert_eq!(err.location, Location::new(1, 3));
}

#[test]
fn opposite_quote_is_kept_in_string_literal() {
    let tokens = tokenize("\"it's\"");
    assert_eq!(
        tokens,
        vec![Token::StrLit { content: "it's".to_string(), location: Location::new(1, 1) }]
    );
}

#[test]
fn single_quoted_literal_keeps_double_quotes() {
    let tokens = tokenize("'say \"hi\"'");
    assert_eq!(
        tokens,
        vec![Token::StrLit { content: "say \"hi\"".to_string(), location: Location::new(1, 1) }]
    );
}

#[test]
fn unterminated_string_is_dropped() {
    assert_eq!(tokenize("'abc"), vec![]);
}

#[test]
fn location_counts_lines_and_columns() {
    let tokens = tokenize("(a\n  b)");
    assert_eq!(
        tokens,
        vec![
            Token::LParen { location: Location::new(1, 1) },
            sym("a", 1, 2),
            sym("b", 2, 3),
            Token::RParen { location: Location::new(2, 4) },
        ]
    );
}

#[test]
fn relexing_gives_element_wise_equal_tokens() {
    let source = "(alpha 'beta' (gamma))";
    let first = tokenize(source);
    let second = tokenize(source);
    assert_eq!(first.len(), second.len());
    for (a, b) in first.iter().zip(second.iter()) {
        assert_eq!(a, b);
    }
}

#[test]
fn symbol_in_progress_is_flushed_at_end_of_input() {
    let tokens = tokenize("ab");
    assert_eq!(tokens, vec![sym("ab", 1, 1)]);
}

#[test]
fn paren_flushes_symbol_in_progress() {
    let tokens = tokenize("a(b");
    assert_eq!(
        tokens,
        vec![sym("a", 1, 1), Token::LParen { location: Location::new(1, 2) }, sym("b", 1, 3)]
    );
}

#[test]
fn find_exp_end_locates_matching_close() {
    let tokens = tokenize("(a (b c))");
    assert_eq!(find_exp_end(&tokens, 0).unwrap(), 6);
    assert_eq!(find_exp_end(&tokens, 2).unwrap(), 5);
}

#[test]
fn find_exp_end_reports_stray_close() {
    let tokens = tokenize(")");
    let err = find_exp_end(&tokens, 0).unwrap_err();
    assert_eq!(err.message, "Unexpected closing parentheses");
    assert_eq!(err.location, Location::new(1, 1));
}

#[test]
fn find_exp_end_reports_missing_close() {
    let tokens = tokenize("((a)");
    let err = find_exp_end(&tokens, 0).unwrap_err();
    assert_eq!(err.message, "Missing closing parentheses");
    assert_eq!(err.location, Location::new(1, 4));
}

#[test]
fn whole_range_merges_adjacent_top_level_groups() {
    let tokens = tokenize("(a) (b)");
    let exp = parse_expression(&tokens, 0, tokens.len()).unwrap();
    assert_eq!(exp, Exp::List { contents: vec![atom("a", 1, 2), atom("b", 1, 6)] });
}

#[test]
fn top_level_keeps_adjacent_groups_separate() {
    let tokens = tokenize("(a) (b)");
    let exps = parse_top_level(&tokens).unwrap();
    assert_eq!(
        exps,
        vec![
            Exp::List { contents: vec![atom("a", 1, 2)] },
            Exp::List { contents: vec![atom("b", 1, 6)] },
        ]
    );
}

#[test]
fn balanced_nesting_of_depth_three_parses() {
    let tokens = tokenize("((()))");
    let exp = parse_expression(&tokens, 0, tokens.len()).unwrap();
    assert_eq!(
        exp,
        Exp::List { contents: vec![Exp::List { contents: vec![Exp::Nil] }] }
    );
}

#[test]
fn string_literal_is_an_atom_inside_a_list() {
    let tokens = tokenize("(say 'hi there')");
    let exp = parse_expression(&tokens, 0, tokens.len()).unwrap();
    assert_eq!(
        exp,
        Exp::List {
            contents: vec![
                atom("say", 1, 2),
                Exp::Atom {
                    token: Token::StrLit {
                        content: "hi there".to_string(),
                        location: Location::new(1, 6),
                    },
                },
            ],
        }
    );
}

#[test]
fn locations_and_errors_expose_their_parts() {
    let loc = Location::new(3, 7);
    assert_eq!(loc.line, 3);
    assert_eq!(loc.column, 7);
    let t = sym("x", 3, 7);
    assert_eq!(t.get_location(), loc);
    let err = ParseError::new("Invalid expression".to_string(), loc);
    assert_eq!(err.description(), "Invalid expression");
    assert_eq!(err.location, loc);
}

#[test]
fn top_level_reports_missing_close_at_last_token() {
    let tokens = tokenize("(a (b)");
    let err = parse_top_level(&tokens).unwrap_err();
    assert_eq!(err.message, "Missing closing parentheses");
    assert_eq!(err.location, Location::new(1, 6));
}
