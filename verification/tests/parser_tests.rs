use bina::lexer::Token;
use bina::parser::{
    copy_expr, copy_statement, copy_term, expect_semicolon, parse_block, parse_expr, parse_input,
    parse_statement, parse_term, parse_while, token_at, Expected, Expr, ParseError, Statement, Term,
};

fn identifier(name: &str) -> Token {
    Token::Identifier(name.to_string())
}

fn text(contents: &str) -> Token {
    Token::String(contents.to_string())
}

fn variable(name: &str) -> Term {
    Term::Variable(name.to_string())
}

fn single(term: Term) -> Box<Expr> {
    Box::new(Expr::TermWrapper(term))
}

fn assign(name: &str, value: Expr, declares: bool) -> Statement {
    Statement::Assignment(name.to_string(), Box::new(value), declares)
}

fn add(left: Term, right: Term) -> Expr {
    Expr::Add(Box::new(left), Box::new(right))
}

fn unexpected<T>(expected: Expected, found: Option<Token>) -> Result<T, ParseError> {
    Err(ParseError { expected, found })
}

#[test]
fn test_assignment() {
    // An assignment ends with `;`: without it the tokens are no program.
    let input = vec![identifier("x"), Token::Assignment, Token::Integer(10)];
    assert_eq!(parse_input(input), unexpected(Expected::Semicolon, None));
    let input = vec![identifier("x"), Token::Assignment, Token::Integer(10), Token::Semicolon];
    let ret = parse_input(input).unwrap();
    assert_eq!(
        ret,
        vec![Statement::Assignment(
            "x".to_string(),
            Box::new(Expr::TermWrapper(Term::Integer(10))),
            false
        )]
    );
    let input = vec![Token::Let, identifier("x"), Token::Assignment, Token::Integer(10)];
    assert_eq!(parse_input(input), unexpected(Expected::Semicolon, None));
    let input =
        vec![Token::Let, identifier("x"), Token::Assignment, Token::Integer(10), Token::Semicolon];
    let ret = parse_input(input).unwrap();
    assert_eq!(
        ret,
        vec![Statement::Assignment(
            "x".to_string(),
            Box::new(Expr::TermWrapper(Term::Integer(10))),
            true
        )]
    );
    println!("ret: {:?}", ret);
}

#[test]
fn test_parser() {
    let input = vec![
        Token::While,
        Token::True,
        Token::OpenGraphParenthesis,
        Token::Let,
        identifier("i"),
        Token::Assignment,
        Token::Integer(10),
        Token::Addition,
        Token::Integer(5),
        Token::Semicolon,
        Token::CloseGraphParenthesis,
    ];
    let ret = parse_input(input);
    println!("ret: {:?}", ret);
    assert_eq!(
        ret,
        Ok(vec![Statement::While(
            single(Term::Boolean(true)),
            Box::new(Statement::Block(vec![assign(
                "i",
                add(Term::Integer(10), Term::Integer(5)),
                true
            )])),
        )])
    );
}

fn quiz_tokens() -> Vec<Token> {
    vec![
        Token::Let,
        identifier("quiz_input"),
        Token::Assignment,
        text("\n1abc2\n"),
        Token::Semicolon,
        Token::Let,
        identifier("sum"),
        Token::Assignment,
        Token::Integer(0),
        Token::Semicolon,
        Token::Let,
        identifier("index"),
        Token::Assignment,
        Token::Integer(0),
        Token::Semicolon,
        Token::While,
        identifier("index"),
        Token::LessThan,
        Token::Integer(42),
        Token::OpenGraphParenthesis,
        Token::Let,
        identifier("is_first_digit_found"),
        Token::Assignment,
        Token::False,
        Token::Semicolon,
        Token::Let,
        identifier("first_digit_found"),
        Token::Assignment,
        Token::Integer(0),
        Token::Semicolon,
        Token::Let,
        identifier("last_digit_found"),
        Token::Assignment,
        Token::Integer(0),
        Token::Semicolon,
        Token::While,
        identifier("quiz_input"),
        Token::OpenSquareParenthesis,
        identifier("index"),
        Token::CloseSquareParenthesis,
        Token::Disequality,
        text("\\n"),
        Token::OpenGraphParenthesis,
        Token::If,
        identifier("quiz_input"),
        Token::OpenSquareParenthesis,
        identifier("index"),
        Token::CloseSquareParenthesis,
        Token::In,
        text("0123456789"),
        Token::OpenGraphParenthesis,
        Token::If,
        identifier("is_first_digit_found"),
        Token::Disequality,
        Token::False,
        Token::OpenGraphParenthesis,
        identifier("first_digit_found"),
        Token::Assignment,
        identifier("quiz_input"),
        Token::OpenSquareParenthesis,
        identifier("index"),
        Token::CloseSquareParenthesis,
        Token::Semicolon,
        identifier("is_first_digit_found"),
        Token::Assignment,
        Token::True,
        Token::Semicolon,
        Token::CloseGraphParenthesis,
        identifier("last_digit_found"),
        Token::Assignment,
        identifier("quiz_input"),
        Token::OpenSquareParenthesis,
        identifier("index"),
        Token::CloseSquareParenthesis,
        Token::Semicolon,
        Token::CloseGraphParenthesis,
        identifier("index"),
        Token::Assignment,
        identifier("index"),
        Token::Addition,
        Token::Integer(1),
        Token::Semicolon,
        Token::CloseGraphParenthesis,
        Token::Let,
        identifier("last_digit_found_mult"),
        Token::Assignment,
        identifier("last_digit_found"),
        Token::Multiplication,
        Token::Integer(10),
        Token::Semicolon,
        identifier("sum"),
        Token::Assignment,
        identifier("sum"),
        Token::Addition,
        identifier("last_digit_found_mult"),
        Token::Semicolon,
        identifier("sum"),
        Token::Assignment,
        identifier("sum"),
        Token::Addition,
        identifier("first_digit_found"),
        Token::Semicolon,
        identifier("index"),
        Token::Assignment,
        identifier("index"),
        Token::Addition,
        Token::Integer(1),
        Token::Semicolon,
        Token::CloseGraphParenthesis,
    ]
}

#[test]
fn test_program() {
    let tokens = quiz_tokens();
    let parse = parse_input(tokens).unwrap();
    assert_eq!(parse.len(), 4);
    assert_eq!(
        parse[0],
        assign("quiz_input", Expr::TermWrapper(Term::String("\n1abc2\n".to_string())), true)
    );
    assert_eq!(parse[2], assign("index", Expr::TermWrapper(Term::Integer(0)), true));
    match &parse[3] {
        Statement::While(predicate, body) => {
            assert_eq!(
                **predicate,
                Expr::LessThan(Box::new(variable("index")), Box::new(Term::Integer(42)))
            );
            match &**body {
                Statement::Block(items) => {
                    assert_eq!(items.len(), 8);
                    assert_eq!(
                        items[7],
                        assign("index", add(variable("index"), Term::Integer(1)), false)
                    );
                },
                other => panic!("not a block: {:?}", other),
            }
        },
        other => panic!("not a loop: {:?}", other),
    }
}

#[test]
fn parsing_twice_gives_the_same_program() {
    assert_eq!(parse_input(quiz_tokens()), parse_input(quiz_tokens()));
    let broken = vec![Token::Print, Token::Semicolon];
    assert_eq!(parse_input(broken.clone()), parse_input(broken));
}

#[test]
fn empty_token_sequence_is_the_empty_program() {
    assert_eq!(parse_input(vec![]), Ok(vec![]));
}

#[test]
fn terms() {
    let tokens = vec![
        Token::Integer(7),
        text("s"),
        Token::True,
        Token::False,
        identifier("v"),
        Token::Semicolon,
    ];
    assert_eq!(parse_term(&tokens, 0), Ok((Term::Integer(7), 1)));
    assert_eq!(parse_term(&tokens, 1), Ok((Term::String("s".to_string()), 2)));
    assert_eq!(parse_term(&tokens, 2), Ok((Term::Boolean(true), 3)));
    assert_eq!(parse_term(&tokens, 3), Ok((Term::Boolean(false), 4)));
    assert_eq!(parse_term(&tokens, 4), Ok((variable("v"), 5)));
    assert_eq!(parse_term(&tokens, 5), unexpected(Expected::Term, Some(Token::Semicolon)));
    assert_eq!(parse_term(&tokens, 6), unexpected(Expected::Term, None));
    assert_eq!(parse_term(&tokens, 60), unexpected(Expected::Term, None));
}

#[test]
fn indexed_variable() {
    let tokens = vec![
        identifier("s"),
        Token::OpenSquareParenthesis,
        identifier("i"),
        Token::Addition,
        Token::Integer(1),
        Token::CloseSquareParenthesis,
        Token::Semicolon,
    ];
    assert_eq!(
        parse_term(&tokens, 0),
        Ok((
            Term::VariableIndexed(
                "s".to_string(),
                Box::new(add(variable("i"), Term::Integer(1)))
            ),
            6
        ))
    );
}

#[test]
fn any_token_closes_an_index() {
    let tokens = vec![
        identifier("s"),
        Token::OpenSquareParenthesis,
        Token::Integer(0),
        Token::Semicolon,
        Token::Semicolon,
    ];
    assert_eq!(
        parse_term(&tokens, 0),
        Ok((Term::VariableIndexed("s".to_string(), single(Term::Integer(0))), 4))
    );
}

#[test]
fn index_cut_short_by_the_end_of_the_tokens() {
    let tokens = vec![identifier("s"), Token::OpenSquareParenthesis, Token::Integer(0)];
    assert_eq!(parse_term(&tokens, 0), unexpected(Expected::CloseBracket, None));
    let tokens = vec![identifier("s"), Token::OpenSquareParenthesis];
    assert_eq!(parse_term(&tokens, 0), unexpected(Expected::Term, None));
}

#[test]
fn nested_index() {
    let tokens = vec![
        identifier("a"),
        Token::OpenSquareParenthesis,
        identifier("b"),
        Token::OpenSquareParenthesis,
        Token::Integer(0),
        Token::CloseSquareParenthesis,
        Token::CloseSquareParenthesis,
    ];
    assert_eq!(
        parse_term(&tokens, 0),
        Ok((
            Term::VariableIndexed(
                "a".to_string(),
                single(Term::VariableIndexed("b".to_string(), single(Term::Integer(0))))
            ),
            7
        ))
    );
}

#[test]
fn every_operator() {
    let cases = vec![
        (Token::Multiplication, Expr::Multiply(Box::new(variable("a")), Box::new(variable("b")))),
        (Token::Addition, Expr::Add(Box::new(variable("a")), Box::new(variable("b")))),
        (Token::Disequality, Expr::DisEquality(Box::new(variable("a")), Box::new(variable("b")))),
        (Token::Equality, Expr::Equality(Box::new(variable("a")), Box::new(variable("b")))),
        (Token::LessThan, Expr::LessThan(Box::new(variable("a")), Box::new(variable("b")))),
        (Token::In, Expr::ContainedIn(Box::new(variable("a")), Box::new(variable("b")))),
    ];
    for (operator, expected) in cases {
        let tokens = vec![identifier("a"), operator, identifier("b")];
        assert_eq!(parse_expr(&tokens, 0), Ok((expected, 3)));
    }
}

#[test]
fn tokens_that_are_no_operator_end_the_expression() {
    for other in [
        Token::LogicalOr,
        Token::ExclamationPoint,
        Token::Semicolon,
        Token::OpenRoundParenthesis,
        Token::Assignment,
        Token::Else,
    ] {
        let tokens = vec![identifier("a"), other, identifier("b")];
        assert_eq!(parse_expr(&tokens, 0), Ok((Expr::TermWrapper(variable("a")), 1)));
    }
}

#[test]
fn expression_at_the_end_of_the_tokens_is_a_single_term() {
    let tokens = vec![Token::Integer(10)];
    assert_eq!(parse_expr(&tokens, 0), Ok((Expr::TermWrapper(Term::Integer(10)), 1)));
}

#[test]
fn operator_without_right_operand() {
    let tokens = vec![Token::Integer(10), Token::Addition];
    assert_eq!(parse_expr(&tokens, 0), unexpected(Expected::Term, None));
    let tokens = vec![Token::Integer(10), Token::Addition, Token::Semicolon];
    assert_eq!(parse_expr(&tokens, 0), unexpected(Expected::Term, Some(Token::Semicolon)));
}

#[test]
fn a_second_operator_is_left_where_it_stands() {
    let tokens = vec![
        identifier("a"),
        Token::Addition,
        identifier("b"),
        Token::Addition,
        identifier("c"),
    ];
    assert_eq!(parse_expr(&tokens, 0), Ok((add(variable("a"), variable("b")), 3)));
    // In a statement, what is left is not the `;` that must follow.
    let tokens = vec![
        Token::Print,
        identifier("a"),
        Token::Addition,
        identifier("b"),
        Token::Addition,
        identifier("c"),
        Token::Semicolon,
    ];
    assert_eq!(parse_input(tokens), unexpected(Expected::Semicolon, Some(Token::Addition)));
    // As a predicate, what is left is not the `{` that must follow.
    let tokens = vec![
        Token::If,
        identifier("a"),
        Token::Addition,
        identifier("b"),
        Token::Addition,
        identifier("c"),
        Token::OpenGraphParenthesis,
        Token::CloseGraphParenthesis,
    ];
    assert_eq!(parse_input(tokens), unexpected(Expected::OpenBrace, Some(Token::Addition)));
}

#[test]
fn statements_of_each_kind() {
    let tokens = vec![Token::Print, identifier("x"), Token::Semicolon];
    assert_eq!(
        parse_statement(&tokens, 0),
        Ok((Statement::Print(single(variable("x"))), 3))
    );
    let tokens = vec![
        Token::If,
        Token::True,
        Token::OpenGraphParenthesis,
        Token::CloseGraphParenthesis,
    ];
    assert_eq!(
        parse_statement(&tokens, 0),
        Ok((Statement::If(single(Term::Boolean(true)), Box::new(Statement::Block(vec![]))), 4))
    );
    let tokens = vec![
        Token::While,
        identifier("a"),
        Token::LessThan,
        Token::Integer(3),
        Token::OpenGraphParenthesis,
        Token::Print,
        identifier("a"),
        Token::Semicolon,
        Token::CloseGraphParenthesis,
    ];
    let expected = Statement::While(
        Box::new(Expr::LessThan(Box::new(variable("a")), Box::new(Term::Integer(3)))),
        Box::new(Statement::Block(vec![Statement::Print(single(variable("a")))])),
    );
    assert_eq!(parse_statement(&tokens, 0), Ok((copy_statement(&expected), 9)));
    assert_eq!(parse_while(&tokens, 1), Ok((expected, 9)));
}

#[test]
fn else_is_no_statement() {
    let tokens = vec![
        Token::If,
        Token::True,
        Token::OpenGraphParenthesis,
        Token::CloseGraphParenthesis,
        Token::Else,
        Token::OpenGraphParenthesis,
        Token::CloseGraphParenthesis,
    ];
    assert_eq!(parse_input(tokens), unexpected(Expected::Statement, Some(Token::Else)));
}

#[test]
fn statement_errors() {
    let tokens = vec![Token::Semicolon];
    assert_eq!(
        parse_statement(&tokens, 0),
        unexpected(Expected::Statement, Some(Token::Semicolon))
    );
    assert_eq!(parse_statement(&tokens, 1), unexpected(Expected::Statement, None));
    let tokens = vec![identifier("x"), Token::Equality, Token::Integer(1), Token::Semicolon];
    assert_eq!(parse_input(tokens), unexpected(Expected::Assignment, Some(Token::Equality)));
    let tokens = vec![identifier("x")];
    assert_eq!(parse_input(tokens), unexpected(Expected::Assignment, None));
    let tokens = vec![Token::Let, Token::Integer(1)];
    assert_eq!(parse_input(tokens), unexpected(Expected::Identifier, Some(Token::Integer(1))));
    let tokens = vec![Token::Let];
    assert_eq!(parse_input(tokens), unexpected(Expected::Identifier, None));
    let tokens = vec![Token::Let, identifier("x"), Token::Semicolon];
    assert_eq!(parse_input(tokens), unexpected(Expected::Assignment, Some(Token::Semicolon)));
    let tokens = vec![Token::Print, Token::Integer(1), Token::CloseGraphParenthesis];
    assert_eq!(
        parse_input(tokens),
        unexpected(Expected::Semicolon, Some(Token::CloseGraphParenthesis))
    );
    let tokens = vec![Token::Print];
    assert_eq!(parse_input(tokens), unexpected(Expected::Term, None));
    let tokens = vec![Token::While, Token::True, Token::Print];
    assert_eq!(parse_input(tokens), unexpected(Expected::OpenBrace, Some(Token::Print)));
    let tokens = vec![Token::If, Token::True];
    assert_eq!(parse_input(tokens), unexpected(Expected::OpenBrace, None));
}

#[test]
fn blocks() {
    let tokens = vec![
        Token::OpenGraphParenthesis,
        Token::OpenGraphParenthesis,
        Token::CloseGraphParenthesis,
    ];
    // A block is no statement of its own.
    assert_eq!(
        parse_block(&tokens, 0),
        unexpected(Expected::Statement, Some(Token::OpenGraphParenthesis))
    );
    assert_eq!(parse_block(&tokens, 1), Ok((Statement::Block(vec![]), 3)));
    assert_eq!(
        parse_block(&tokens, 2),
        unexpected(Expected::OpenBrace, Some(Token::CloseGraphParenthesis))
    );
    assert_eq!(parse_block(&tokens, 3), unexpected(Expected::OpenBrace, None));
}

#[test]
fn unterminated_block() {
    let tokens = vec![
        Token::While,
        Token::True,
        Token::OpenGraphParenthesis,
        Token::Print,
        Token::Integer(1),
        Token::Semicolon,
    ];
    assert_eq!(parse_input(tokens), unexpected(Expected::Statement, None));
}

#[test]
fn nested_blocks() {
    let tokens = vec![
        Token::If,
        Token::True,
        Token::OpenGraphParenthesis,
        Token::If,
        Token::False,
        Token::OpenGraphParenthesis,
        Token::Print,
        Token::Integer(1),
        Token::Semicolon,
        Token::CloseGraphParenthesis,
        Token::Print,
        Token::Integer(2),
        Token::Semicolon,
        Token::CloseGraphParenthesis,
        Token::Print,
        Token::Integer(3),
        Token::Semicolon,
    ];
    let print = |n: i64| Statement::Print(single(Term::Integer(n)));
    assert_eq!(
        parse_input(tokens),
        Ok(vec![
            Statement::If(
                single(Term::Boolean(true)),
                Box::new(Statement::Block(vec![
                    Statement::If(
                        single(Term::Boolean(false)),
                        Box::new(Statement::Block(vec![print(1)]))
                    ),
                    print(2),
                ]))
            ),
            print(3),
        ])
    );
}

#[test]
fn semicolon_is_expected() {
    assert_eq!(expect_semicolon(Some(&Token::Semicolon)), Ok(()));
    assert_eq!(
        expect_semicolon(Some(&Token::Addition)),
        unexpected(Expected::Semicolon, Some(Token::Addition))
    );
    assert_eq!(expect_semicolon(None), unexpected(Expected::Semicolon, None));
}

#[test]
fn token_at_a_position() {
    let tokens = vec![Token::Let, identifier("x")];
    assert_eq!(token_at(&tokens, 0), Some(&Token::Let));
    assert_eq!(token_at(&tokens, 1), Some(&identifier("x")));
    assert_eq!(token_at(&tokens, 2), None);
}

#[test]
fn copies_are_equal() {
    let term = Term::VariableIndexed("s".to_string(), Box::new(add(variable("i"), Term::Integer(1))));
    assert_eq!(copy_term(&term), term);
    assert_eq!(term.clone(), term);
    let expr = Expr::ContainedIn(Box::new(copy_term(&term)), Box::new(Term::String("x".to_string())));
    assert_eq!(copy_expr(&expr), expr);
    assert_eq!(expr.clone(), expr);
    let program = parse_input(quiz_tokens()).unwrap();
    let copies: Vec<Statement> = program.iter().map(|s| s.clone()).collect();
    assert_eq!(copies, program);
}
