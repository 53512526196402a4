use bina::lexer::{continues_word, next_token, parse, scan_run, CharClass, LexError, Token};

fn expect_single_number(line: &str, expected: Token) {
    let tokens = parse(line).unwrap();
    assert_eq!(tokens.len(), 1);
    assert_eq!(tokens[0], expected);
}

fn identifier(name: &str) -> Token {
    Token::Identifier(name.to_string())
}

fn text(contents: &str) -> Token {
    Token::String(contents.to_string())
}

#[test]
fn test_number_parsing() {
    expect_single_number("1", Token::Integer(1));
    expect_single_number("123", Token::Integer(123));
    expect_single_number("0", Token::Integer(0));
    expect_single_number("10", Token::Integer(10));
    expect_single_number("100", Token::Integer(100));
    expect_single_number("1000", Token::Integer(1000));
    expect_single_number("10000", Token::Integer(10000));
    expect_single_number("100000", Token::Integer(100000));
    expect_single_number("    1000000   ", Token::Integer(1000000));
}

#[test]
fn test_while() {
    let program = "while true { let i := 10 + 5; }";
    let tokens = parse(program).unwrap();
    assert_eq!(
        tokens,
        vec![
            Token::While,
            Token::True,
            Token::OpenGraphParenthesis,
            Token::Let,
            Token::Identifier("i".to_string()),
            Token::Assignment,
            Token::Integer(10),
            Token::Addition,
            Token::Integer(5),
            Token::Semicolon,
            Token::CloseGraphParenthesis
        ]
    );
}

#[test]
fn test_keywords_identifiers_parsing() {
    let line = "while ";
    assert_eq!(parse(line), Ok(vec![Token::While]));
}

#[test]
fn test_parse_line() {
    let program = r#"      
let quiz_input := "
1abc2
";
let sum := 0;
let index := 0;
while index < 42 {
    let is_first_digit_found := false;
    let first_digit_found := 0;
    let last_digit_found := 0;
    while quiz_input[index] != "\n" {
        if quiz_input[index] in "0123456789" {
            if is_first_digit_found != false {
                first_digit_found := quiz_input[index];
                is_first_digit_found := true;
            } 
            last_digit_found := quiz_input[index];
        }
        index := index + 1;
    }
    let last_digit_found_mult := last_digit_found * 10;
    sum := sum + last_digit_found_mult;
    sum := sum + first_digit_found;
    index := index + 1;
}
"#;
    let tokens = parse(program).unwrap();
    println!("{:?}", tokens);
    assert_eq!(tokens.len(), 109);
    assert_eq!(tokens[0], Token::Let);
    assert_eq!(tokens[1], identifier("quiz_input"));
    assert_eq!(tokens[3], text("\n1abc2\n"));
    assert_eq!(tokens[108], Token::CloseGraphParenthesis);
}

#[test]
fn empty_text_has_no_tokens() {
    assert_eq!(parse(""), Ok(vec![]));
    assert_eq!(parse(" \t\r\n  "), Ok(vec![]));
}

#[test]
fn every_keyword_is_recognised() {
    assert_eq!(
        parse("while if else true false let in print"),
        Ok(vec![
            Token::While,
            Token::If,
            Token::Else,
            Token::True,
            Token::False,
            Token::Let,
            Token::In,
            Token::Print,
        ])
    );
}

#[test]
fn words_near_keywords_are_identifiers() {
    assert_eq!(
        parse("While whilee _if in_ print1 letx"),
        Ok(vec![
            identifier("While"),
            identifier("whilee"),
            identifier("_if"),
            identifier("in_"),
            identifier("print1"),
            identifier("letx"),
        ])
    );
}

#[test]
fn punctuation_maps_to_tokens() {
    assert_eq!(
        parse("(){}[];+*<"),
        Ok(vec![
            Token::OpenRoundParenthesis,
            Token::CloseRoundParenthesis,
            Token::OpenGraphParenthesis,
            Token::CloseGraphParenthesis,
            Token::OpenSquareParenthesis,
            Token::CloseSquareParenthesis,
            Token::Semicolon,
            Token::Addition,
            Token::Multiplication,
            Token::LessThan,
        ])
    );
}

#[test]
fn two_character_operators() {
    assert_eq!(
        parse(":= == != ||"),
        Ok(vec![Token::Assignment, Token::Equality, Token::Disequality, Token::LogicalOr])
    );
    assert_eq!(parse(":===!=||"), Ok(vec![
        Token::Assignment,
        Token::Equality,
        Token::Disequality,
        Token::LogicalOr
    ]));
}

#[test]
fn operator_cut_short_is_an_error() {
    assert_eq!(parse("a = 1"), Err(LexError::MalformedOperator('=', Some(' '))));
    assert_eq!(parse("a : 1"), Err(LexError::MalformedOperator(':', Some(' '))));
    assert_eq!(parse("a |b"), Err(LexError::MalformedOperator('|', Some('b'))));
    assert_eq!(parse("!a"), Err(LexError::MalformedOperator('!', Some('a'))));
    assert_eq!(parse("x :"), Err(LexError::MalformedOperator(':', None)));
    assert_eq!(parse("="), Err(LexError::MalformedOperator('=', None)));
    assert_eq!(parse("|"), Err(LexError::MalformedOperator('|', None)));
    assert_eq!(parse("!"), Err(LexError::MalformedOperator('!', None)));
}

#[test]
fn unknown_character_is_an_error() {
    assert_eq!(parse("let x := 1 - 2;"), Err(LexError::UnrecognizedChar('-')));
    assert_eq!(parse("#"), Err(LexError::UnrecognizedChar('#')));
    assert_eq!(parse("1 / 2"), Err(LexError::UnrecognizedChar('/')));
    assert_eq!(parse("é"), Err(LexError::UnrecognizedChar('é')));
}

#[test]
fn an_error_returns_no_tokens() {
    assert_eq!(parse("let x := 10; ?"), Err(LexError::UnrecognizedChar('?')));
}

#[test]
fn number_followed_by_word() {
    assert_eq!(parse("123abc"), Ok(vec![Token::Integer(123), identifier("abc")]));
    assert_eq!(parse("abc123"), Ok(vec![identifier("abc123")]));
    assert_eq!(parse("a1 b2"), Ok(vec![identifier("a1"), identifier("b2")]));
}

#[test]
fn leading_zeros_do_not_change_the_value() {
    assert_eq!(parse("007"), Ok(vec![Token::Integer(7)]));
    assert_eq!(parse("000"), Ok(vec![Token::Integer(0)]));
}

#[test]
fn words_continue_over_alphanumeric_characters_of_any_script() {
    assert_eq!(parse("caf\u{e9} x"), Ok(vec![identifier("caf\u{e9}"), identifier("x")]));
    assert_eq!(parse("a\u{663}b"), Ok(vec![identifier("a\u{663}b")]));
    assert_eq!(parse("a_b_"), Ok(vec![identifier("a_b_")]));
    assert_eq!(parse("ab+cd"), Ok(vec![identifier("ab"), Token::Addition, identifier("cd")]));
}

#[test]
fn string_literals() {
    assert_eq!(parse("\"abc\""), Ok(vec![text("abc")]));
    assert_eq!(parse("\"\""), Ok(vec![text("")]));
    assert_eq!(parse("\"a b\"\"c\""), Ok(vec![text("a b"), text("c")]));
    assert_eq!(parse("\"while 1 + #\""), Ok(vec![text("while 1 + #")]));
    assert_eq!(parse("\"line\nbreak\""), Ok(vec![text("line\nbreak")]));
}

#[test]
fn backslash_n_becomes_a_line_feed() {
    assert_eq!(parse(r#""\n""#), Ok(vec![text("\n")]));
    assert_eq!(parse(r#""a\nb\n""#), Ok(vec![text("a\nb\n")]));
    assert_eq!(parse(r#""\\n""#), Ok(vec![text("\\\n")]));
    assert_eq!(parse(r#""\t\x""#), Ok(vec![text("\\t\\x")]));
    assert_eq!(parse(r#""\""#), Ok(vec![text("\\")]));
    assert_eq!(parse(r#""n\""#), Ok(vec![text("n\\")]));
}

#[test]
fn a_quote_always_ends_a_string() {
    assert_eq!(parse(r#""a\"b"""#), Ok(vec![text("a\\"), identifier("b"), text("")]));
    assert_eq!(parse(r#""a\"b""#), Err(LexError::UnterminatedString));
}

#[test]
fn unterminated_string_is_an_error() {
    assert_eq!(parse("\"abc"), Err(LexError::UnterminatedString));
    assert_eq!(parse("x \""), Err(LexError::UnterminatedString));
    assert_eq!(parse("\""), Err(LexError::UnterminatedString));
    assert_eq!(parse("let s := \"ab\"; print \"c;"), Err(LexError::UnterminatedString));
    assert_eq!(parse("\"a\\n"), Err(LexError::UnterminatedString));
    let chars: Vec<char> = "\"ab".chars().collect();
    assert_eq!(next_token(&chars, 0), Err(LexError::UnterminatedString));
}

#[test]
fn ascii_characters_that_are_no_letter_or_digit_end_a_word() {
    for c in " \t\n(){}[];+*<\"".chars() {
        let line = format!("ab{}", c);
        let chars: Vec<char> = line.chars().collect();
        assert_eq!(scan_run(&chars, 1, CharClass::Word), 2, "after {:?}", c);
    }
    for c in "azAZ09_".chars() {
        let line = format!("ab{} ", c);
        let chars: Vec<char> = line.chars().collect();
        assert_eq!(scan_run(&chars, 1, CharClass::Word), 3, "after {:?}", c);
    }
}

#[test]
fn literal_of_eighteen_digits_round_trips() {
    for numeral in ["0", "7", "10", "42", "999999999999999999", "100000000000000000", "123456789012345678"]
    {
        let tokens = parse(numeral).unwrap();
        assert_eq!(tokens.len(), 1);
        match &tokens[0] {
            Token::Integer(n) => assert_eq!(bina::text::number_text(*n), numeral),
            other => panic!("not an integer: {:?}", other),
        }
    }
}

#[test]
fn literal_beyond_64_bits_wraps() {
    assert_eq!(parse("9223372036854775807"), Ok(vec![Token::Integer(i64::MAX)]));
    assert_eq!(parse("9223372036854775808"), Ok(vec![Token::Integer(i64::MIN)]));
    assert_eq!(parse("18446744073709551616"), Ok(vec![Token::Integer(0)]));
    assert_eq!(parse("18446744073709551617"), Ok(vec![Token::Integer(1)]));
    assert_eq!(parse("36893488147419103242"), Ok(vec![Token::Integer(10)]));
}

#[test]
fn scan_run_reads_a_maximal_run() {
    let chars: Vec<char> = "123ab_4 \"x".chars().collect();
    assert_eq!(scan_run(&chars, 0, CharClass::Digit), 3);
    assert_eq!(scan_run(&chars, 3, CharClass::Digit), 3);
    assert_eq!(scan_run(&chars, 3, CharClass::Word), 7);
    assert_eq!(scan_run(&chars, 0, CharClass::Quoted), 8);
    assert_eq!(scan_run(&chars, 9, CharClass::Quoted), 10);
    assert_eq!(scan_run(&chars, 10, CharClass::Word), 10);
}

#[test]
fn next_token_reads_one_token() {
    let chars: Vec<char> = "let x1:= \"a\\nb\" 12".chars().collect();
    assert_eq!(next_token(&chars, 0), Ok((Some(Token::Let), 3)));
    assert_eq!(next_token(&chars, 3), Ok((None, 4)));
    assert_eq!(next_token(&chars, 4), Ok((Some(identifier("x1")), 6)));
    assert_eq!(next_token(&chars, 6), Ok((Some(Token::Assignment), 8)));
    assert_eq!(next_token(&chars, 9), Ok((Some(text("a\nb")), 15)));
    assert_eq!(next_token(&chars, 16), Ok((Some(Token::Integer(12)), 18)));
    assert_eq!(next_token(&chars, 7), Err(LexError::MalformedOperator('=', Some(' '))));
}

#[test]
fn token_clone_is_equal() {
    let tokens = parse("while x1 := \"s\" 12 ;").unwrap();
    let copies: Vec<Token> = tokens.iter().map(|t| t.clone()).collect();
    assert_eq!(tokens, copies);
}

#[test]
fn lexing_twice_gives_the_same_tokens() {
    let program = "let s := \"ab\"; print s[1];";
    assert_eq!(parse(program), parse(program));
}

#[test]
fn ascii_is_decided_without_asking_whether_a_character_is_alphanumeric() {
    for c in "abzABZ0189_".chars() {
        assert!(continues_word(c, false));
        assert!(continues_word(c, true));
    }
    for c in " \t\n\r!\"#$%&'()*+,-./:;<=>?@[\\]^`{|}~\u{0}\u{7f}".chars() {
        assert!(!continues_word(c, false), "{:?}", c);
        assert!(!continues_word(c, true), "{:?}", c);
    }
    for c in ['\u{80}', '\u{e9}', '\u{663}', '\u{4eac}'] {
        assert!(continues_word(c, true));
        assert!(!continues_word(c, false));
    }
}
