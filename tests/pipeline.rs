use scheme_front::lexer::{classify_word, lex_match, IteratorLexer, LexError, Lexer, Literal, RegexLexer, Token};
use scheme_front::parser::{parse_next, Node, ParseError, Parser};
use scheme_front::scheme::{parse_expression, CondClause, Expression, Quotation, SchemeError};

fn all_nodes(s: &str) -> Vec<Result<Node, ParseError>> {
    let mut parser = Parser::new(RegexLexer::new(s));
    let mut out = Vec::new();
    while let Some(r) = parser.next() {
        out.push(r);
    }
    out
}

fn analyze_text(s: &str) -> Result<Expression, SchemeError> {
    let mut parser = Parser::new(RegexLexer::new(s));
    parse_expression(parser.next().unwrap().unwrap())
}

fn num(n: i32) -> Expression {
    Expression::Literal(Literal::Number(n))
}

fn sym(s: &str) -> Quotation {
    Quotation::Symbol(s.to_string())
}

fn chars(s: &str) -> Vec<char> {
    s.chars().collect()
}

fn iterator_tokens(s: &str) -> Vec<Result<Token, LexError>> {
    let mut lexer = IteratorLexer::new(chars(s));
    let mut out = Vec::new();
    while let Some(t) = lexer.next_token() {
        out.push(t);
    }
    out
}

#[test]
fn round_trip_if() {
    assert_eq!(
        analyze_text("(if 1 2 3)"),
        Ok(Expression::If(Box::new(num(1)), Box::new(num(2)), Box::new(num(3))))
    );
}

#[test]
fn round_trip_nested() {
    assert_eq!(
        analyze_text("(begin (and #t x) [or] (time 7))"),
        Ok(Expression::Begin(vec![
            Expression::And(vec![
                Expression::Literal(Literal::Boolean(true)),
                Expression::Variable("x".to_string()),
            ]),
            Expression::Or(vec![]),
            Expression::Time(Box::new(num(7))),
        ]))
    );
}

#[test]
fn arity_if_two() {
    assert_eq!(analyze_text("(if 1 2)"), Err(SchemeError::ArityMismatch { expected: 3, got: 2 }));
}

#[test]
fn arity_unless_three() {
    assert_eq!(analyze_text("(unless 1 2 3)"), Err(SchemeError::ArityMismatch { expected: 2, got: 3 }));
}

#[test]
fn arity_time_and_begin() {
    assert_eq!(analyze_text("(time)"), Err(SchemeError::ArityMismatch { expected: 1, got: 0 }));
    assert_eq!(analyze_text("(begin)"), Err(SchemeError::ArityMismatch { expected: 1, got: 0 }));
    assert_eq!(analyze_text("(cond)"), Err(SchemeError::ArityMismatch { expected: 1, got: 0 }));
}

#[test]
fn unless_two() {
    assert_eq!(analyze_text("(unless a b)"), Ok(Expression::Unless(
        Box::new(Expression::Variable("a".to_string())),
        Box::new(Expression::Variable("b".to_string())),
    )));
}

#[test]
fn lone_right_paren() {
    assert_eq!(all_nodes(")"), vec![Err(ParseError::UnmatchedRightParen)]);
}

#[test]
fn lone_left_paren() {
    assert_eq!(all_nodes("("), vec![Err(ParseError::UnexpectedEof)]);
}

#[test]
fn empty_input_yields_nothing() {
    assert!(all_nodes("").is_empty());
    assert!(all_nodes("   ").is_empty());
    let mut lexer = IteratorLexer::new(Vec::new());
    assert!(parse_next(&mut lexer).is_none());
}

#[test]
fn several_top_level_forms() {
    let nodes = all_nodes("a (b) 3");
    assert_eq!(nodes.len(), 3);
    assert_eq!(nodes[0], Ok(Node::Identifier("a".to_string())));
    assert_eq!(nodes[1], Ok(Node::List(vec![Node::Identifier("b".to_string())])));
    assert_eq!(nodes[2], Ok(Node::Literal(Literal::Number(3))));
}

#[test]
fn literal_fidelity() {
    assert_eq!(analyze_text("#T"), Ok(Expression::Literal(Literal::Boolean(true))));
    assert_eq!(analyze_text("#F"), Ok(Expression::Literal(Literal::Boolean(false))));
    assert_eq!(analyze_text("2147483647"), Ok(num(2147483647)));
}

#[test]
fn number_overflow() {
    assert_eq!(all_nodes("2147483648"), vec![Err(ParseError::LexError(LexError::NumberOverflow))]);
}

#[test]
fn bad_escape() {
    assert_eq!(all_nodes("\"a\\qb\""), vec![Err(ParseError::LexError(LexError::BadEscape))]);
}

#[test]
fn unmatched_input() {
    assert_eq!(all_nodes("@"), vec![Err(ParseError::LexError(LexError::Unmatched))]);
}

#[test]
fn quote_list_shape() {
    assert_eq!(
        analyze_text("(quote (a b))"),
        Ok(Expression::Quote(Quotation::Cons(
            Box::new(sym("a")),
            Box::new(Quotation::Cons(Box::new(sym("b")), Box::new(Quotation::Nil))),
        )))
    );
}

#[test]
fn quote_empty_list() {
    assert_eq!(analyze_text("(quote ())"), Ok(Expression::Quote(Quotation::Nil)));
}

#[test]
fn quote_atoms_and_other_counts() {
    assert_eq!(analyze_text("(quote a)"), Ok(Expression::Quote(sym("a"))));
    assert_eq!(
        analyze_text("(quote 5)"),
        Ok(Expression::Quote(Quotation::Literal(Literal::Number(5))))
    );
    assert_eq!(analyze_text("(quote)"), Ok(Expression::Quote(Quotation::Nil)));
    assert_eq!(
        analyze_text("(quote a b)"),
        Ok(Expression::Quote(Quotation::Cons(
            Box::new(sym("a")),
            Box::new(Quotation::Cons(Box::new(sym("b")), Box::new(Quotation::Nil))),
        )))
    );
}

#[test]
fn cond_simple_then_else() {
    assert_eq!(
        analyze_text("(cond (1 2) (else 3))"),
        Ok(Expression::Cond(vec![CondClause::Simple(num(1), num(2))], Box::new(num(3))))
    );
}

#[test]
fn cond_missing_else() {
    assert_eq!(analyze_text("(cond (1 2))"), Err(SchemeError::MalformedCondClause));
}

#[test]
fn cond_else_only() {
    assert_eq!(analyze_text("(cond (else 1))"), Ok(Expression::Cond(vec![], Box::new(num(1)))));
}

#[test]
fn cond_binding_and_inconsequential() {
    assert_eq!(
        analyze_text("(cond (1 => f) (2) (else 3))"),
        Ok(Expression::Cond(
            vec![
                CondClause::Binding(num(1), Expression::Variable("f".to_string())),
                CondClause::Inconsequential(num(2)),
            ],
            Box::new(num(3)),
        ))
    );
    assert_eq!(analyze_text("(cond (1 2 3) (else 3))"), Err(SchemeError::MalformedCondClause));
    assert_eq!(analyze_text("(cond (1 2 3 4) (else 3))"), Err(SchemeError::MalformedCondClause));
    assert_eq!(analyze_text("(cond 1 (else 3))"), Err(SchemeError::MalformedCondClause));
    assert_eq!(
        analyze_text("(cond (else 1) (else 2))"),
        Ok(Expression::Cond(
            vec![CondClause::Simple(Expression::Variable("else".to_string()), num(1))],
            Box::new(num(2)),
        ))
    );
}

#[test]
fn analyzer_errors() {
    assert_eq!(analyze_text("()"), Err(SchemeError::UnexpectedNil));
    assert_eq!(analyze_text("(frob 1)"), Err(SchemeError::UnhandledKeyword("frob".to_string())));
    assert_eq!(analyze_text("(1 2)"), Err(SchemeError::ApplicationNotImplemented));
    assert_eq!(analyze_text("((f) 2)"), Err(SchemeError::ApplicationNotImplemented));
}

#[test]
fn first_error_wins() {
    assert_eq!(analyze_text("(if () (frob) 1)"), Err(SchemeError::UnexpectedNil));
}

#[test]
fn keyword_as_variable() {
    assert_eq!(analyze_text("if"), Ok(Expression::Variable("if".to_string())));
}

#[test]
fn analysis_is_repeatable() {
    let a = parse_expression(all_nodes("(cond (x 1) (else (quote (a))))").remove(0).unwrap());
    let b = parse_expression(all_nodes("(cond (x 1) (else (quote (a))))").remove(0).unwrap());
    assert!(a.is_ok());
    assert_eq!(a, b);
}

#[test]
fn iterator_lexer_tokens() {
    assert_eq!(
        iterator_tokens(" ( foo [12 #t] \"a\\tb\" #\\space)"),
        vec![
            Ok(Token::LParen),
            Ok(Token::Identifier("foo".to_string())),
            Ok(Token::LParen),
            Ok(Token::Literal(Literal::Number(12))),
            Ok(Token::Literal(Literal::Boolean(true))),
            Ok(Token::RParen),
            Ok(Token::Literal(Literal::String("a\tb".to_string()))),
            Ok(Token::Literal(Literal::Character(' '))),
            Ok(Token::RParen),
        ]
    );
}

#[test]
fn iterator_lexer_unmatched_drops_rest() {
    assert_eq!(iterator_tokens("#x a b"), vec![Err(LexError::Unmatched)]);
}

#[test]
fn iterator_lexer_parses() {
    let mut parser = Parser::new(IteratorLexer::new(chars("(if #t 1 2)")));
    let node = parser.next().unwrap().unwrap();
    assert_eq!(
        parse_expression(node),
        Ok(Expression::If(
            Box::new(Expression::Literal(Literal::Boolean(true))),
            Box::new(num(1)),
            Box::new(num(2)),
        ))
    );
    assert!(parser.next().is_none());
}

#[test]
fn classify_words() {
    assert_eq!(classify_word(&chars("abc")), Ok(Token::Identifier("abc".to_string())));
    assert_eq!(classify_word(&chars("007")), Ok(Token::Literal(Literal::Number(7))));
    assert_eq!(classify_word(&chars("\"x\\\\y\"")), Ok(Token::Literal(Literal::String("x\\y".to_string()))));
    assert_eq!(classify_word(&chars("\"abc")), Err(LexError::Unmatched));
    assert_eq!(classify_word(&chars("#\\tab")), Err(LexError::Unmatched));
    assert_eq!(classify_word(&chars("]")), Ok(Token::RParen));
    assert_eq!(classify_word(&chars("")), Err(LexError::Unmatched));
}

#[test]
fn lex_match_steps() {
    let found = Some(("".to_string(), "  foo".to_string(), " bar".to_string()));
    let (t, rest) = lex_match("  foo bar", found);
    assert_eq!(t, Some(Ok(Token::Identifier("foo".to_string()))));
    assert_eq!(rest, " bar");
    let (t, rest) = lex_match("? foo", Some(("? ".to_string(), "foo".to_string(), "".to_string())));
    assert_eq!(t, Some(Err(LexError::Unmatched)));
    assert_eq!(rest, "");
    let (t, rest) = lex_match("  \n", None);
    assert_eq!(t, None);
    assert_eq!(rest, "  \n");
}

#[test]
fn regex_lexer_brackets_and_strings_with_spaces() {
    let mut lexer = RegexLexer::new("[\"a b\" x]");
    assert_eq!(lexer.next_token(), Some(Ok(Token::LParen)));
    assert_eq!(lexer.next_token(), Some(Ok(Token::Literal(Literal::String("a b".to_string())))));
    assert_eq!(lexer.next_token(), Some(Ok(Token::Identifier("x".to_string()))));
    assert_eq!(lexer.next_token(), Some(Ok(Token::RParen)));
    assert_eq!(lexer.next_token(), None);
}

#[test]
fn nested_tree_then_end() {
    let mut lexer = RegexLexer::new("(a (b c) 12)");
    assert_eq!(
        parse_next(&mut lexer),
        Some(Ok(Node::List(vec![
            Node::Identifier("a".to_string()),
            Node::List(vec![Node::Identifier("b".to_string()), Node::Identifier("c".to_string())]),
            Node::Literal(Literal::Number(12)),
        ])))
    );
    assert_eq!(parse_next(&mut lexer), None);
}

#[test]
fn stream_goes_on_after_an_error() {
    assert_eq!(
        all_nodes("foo )garbage"),
        vec![
            Ok(Node::Identifier("foo".to_string())),
            Err(ParseError::UnmatchedRightParen),
            Ok(Node::Identifier("garbage".to_string())),
        ]
    );
}

#[test]
fn lex_error_inside_form() {
    assert_eq!(
        all_nodes("(a \"\\q\") b"),
        vec![
            Err(ParseError::LexError(LexError::BadEscape)),
            Err(ParseError::UnmatchedRightParen),
            Ok(Node::Identifier("b".to_string())),
        ]
    );
}

#[test]
fn whitespace_only_yields_nothing() {
    let mut lexer = RegexLexer::new(" \n ");
    assert_eq!(parse_next(&mut lexer), None);
    let mut lexer = IteratorLexer::new(chars(" \n "));
    assert_eq!(parse_next(&mut lexer), None);
}
