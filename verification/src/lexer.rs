use crate::text::{
    chars_of, decimal_text, decimal_value, digit_of, is_digit, is_digit_char, is_numeral,
    lemma_decimal_value_bound, lemma_numeral_round_trip, lemma_pow10_monotonic,
    lemma_wrap_in_range,
    lemma_wrap_push_digit, pow10, string_of, wrap_i64,
};
use vstd::prelude::*;

verus! {

/// The atomic lexical units of the language.
#[derive(Debug, PartialEq)]
pub enum Token {
    True,
    False,
    Assignment,
    OpenRoundParenthesis,
    CloseRoundParenthesis,
    OpenGraphParenthesis,
    CloseGraphParenthesis,
    OpenSquareParenthesis,
    CloseSquareParenthesis,
    Integer(i64),
    Identifier(String),
    String(String),
    While,
    If,
    Else,
    ExclamationPoint,
    LogicalOr,
    Addition,
    Multiplication,
    Semicolon,
    Equality,
    Disequality,
    Let,
    LessThan,
    In,
    Print,
}

/// The mathematical model of a [`Token`]: text is a sequence of characters.
pub enum SpecToken {
    True,
    False,
    Assignment,
    OpenRoundParenthesis,
    CloseRoundParenthesis,
    OpenGraphParenthesis,
    CloseGraphParenthesis,
    OpenSquareParenthesis,
    CloseSquareParenthesis,
    Integer(i64),
    Identifier(Seq<char>),
    String(Seq<char>),
    While,
    If,
    Else,
    ExclamationPoint,
    LogicalOr,
    Addition,
    Multiplication,
    Semicolon,
    Equality,
    Disequality,
    Let,
    LessThan,
    In,
    Print,
}

impl DeepView for Token {
    type V = SpecToken;

    open spec fn deep_view(&self) -> SpecToken {
        match *self {
            Token::True => SpecToken::True,
            Token::False => SpecToken::False,
            Token::Assignment => SpecToken::Assignment,
            Token::OpenRoundParenthesis => SpecToken::OpenRoundParenthesis,
            Token::CloseRoundParenthesis => SpecToken::CloseRoundParenthesis,
            Token::OpenGraphParenthesis => SpecToken::OpenGraphParenthesis,
            Token::CloseGraphParenthesis => SpecToken::CloseGraphParenthesis,
            Token::OpenSquareParenthesis => SpecToken::OpenSquareParenthesis,
            Token::CloseSquareParenthesis => SpecToken::CloseSquareParenthesis,
            Token::Integer(n) => SpecToken::Integer(n),
            Token::Identifier(s) => SpecToken::Identifier(s@),
            Token::String(s) => SpecToken::String(s@),
            Token::While => SpecToken::While,
            Token::If => SpecToken::If,
            Token::Else => SpecToken::Else,
            Token::ExclamationPoint => SpecToken::ExclamationPoint,
            Token::LogicalOr => SpecToken::LogicalOr,
            Token::Addition => SpecToken::Addition,
            Token::Multiplication => SpecToken::Multiplication,
            Token::Semicolon => SpecToken::Semicolon,
            Token::Equality => SpecToken::Equality,
            Token::Disequality => SpecToken::Disequality,
            Token::Let => SpecToken::Let,
            Token::LessThan => SpecToken::LessThan,
            Token::In => SpecToken::In,
            Token::Print => SpecToken::Print,
        }
    }
}

impl Clone for Token {
    fn clone(&self) -> (copy: Self)
        ensures
            copy.deep_view() == self.deep_view(),
    {
        match self {
            Token::True => Token::True,
            Token::False => Token::False,
            Token::Assignment => Token::Assignment,
            Token::OpenRoundParenthesis => Token::OpenRoundParenthesis,
            Token::CloseRoundParenthesis => Token::CloseRoundParenthesis,
            Token::OpenGraphParenthesis => Token::OpenGraphParenthesis,
            Token::CloseGraphParenthesis => Token::CloseGraphParenthesis,
            Token::OpenSquareParenthesis => Token::OpenSquareParenthesis,
            Token::CloseSquareParenthesis => Token::CloseSquareParenthesis,
            Token::Integer(n) => Token::Integer(*n),
            Token::Identifier(s) => Token::Identifier(s.clone()),
            Token::String(s) => Token::String(s.clone()),
            Token::While => Token::While,
            Token::If => Token::If,
            Token::Else => Token::Else,
            Token::ExclamationPoint => Token::ExclamationPoint,
            Token::LogicalOr => Token::LogicalOr,
            Token::Addition => Token::Addition,
            Token::Multiplication => Token::Multiplication,
            Token::Semicolon => Token::Semicolon,
            Token::Equality => Token::Equality,
            Token::Disequality => Token::Disequality,
            Token::Let => Token::Let,
            Token::LessThan => Token::LessThan,
            Token::In => Token::In,
            Token::Print => Token::Print,
        }
    }
}

/// Why a source text is not a sequence of tokens.
#[derive(Debug, Clone, Copy, PartialEq, Eq)]
pub enum LexError {
    /// A character that starts no token.
    UnrecognizedChar(char),
    /// The first character of a two-character operator, and what stood in place of its second
    /// character (`None` at the end of the text).
    MalformedOperator(char, Option<char>),
    /// A string literal that the text ends in, with no `"` to close it.
    UnterminatedString,
}

/// The classes of characters of which the lexer reads maximal runs.
#[derive(Debug, Clone, Copy, PartialEq, Eq)]
pub enum CharClass {
    /// Decimal digits.
    Digit,
    /// What may follow the first character of a word: letters, digits and `_`.
    Word,
    /// What a string literal may hold: anything but `"`.
    Quoted,
}

/// What `char::is_alphanumeric` of the standard library returns for `c`.
pub uninterp spec fn alphanumeric(c: char) -> bool;

/// Trusted, not proved: `char::is_alphanumeric` of the standard library returns a value that
/// depends on the character alone. Which characters it accepts is left open.
pub assume_specification[ char::is_alphanumeric ](c: char) -> (r: bool)
    ensures
        r == alphanumeric(c),
;

/// Whether the character `c` is of the class `class`.
pub open spec fn accepts(class: CharClass, c: char) -> bool {
    match class {
        CharClass::Digit => is_digit(c),
        CharClass::Word => is_word_char(c, alphanumeric(c)),
        CharClass::Quoted => c != '"',
    }
}

/// Whether `c` is an ASCII letter or digit.
pub open spec fn is_ascii_alphanumeric(c: char) -> bool {
    'a' <= c <= 'z' || 'A' <= c <= 'Z' || '0' <= c <= '9'
}

/// Whether `c` may follow the first character of a word. Among the ASCII characters these are
/// the letters, the digits and `_`; any other character may if it is `alphanumeric`.
pub open spec fn is_word_char(c: char, alphanumeric: bool) -> bool {
    if c <= '\u{7f}' {
        is_ascii_alphanumeric(c) || c == '_'
    } else {
        alphanumeric
    }
}

/// Where the maximal run of characters of `class` that starts at `from` ends.
pub open spec fn run_end(s: Seq<char>, from: int, class: CharClass) -> int
    decreases s.len() - from,
{
    if 0 <= from < s.len() && accepts(class, s[from]) {
        run_end(s, from + 1, class)
    } else {
        from
    }
}

/// Whether `c` is white space between tokens.
pub open spec fn is_space(c: char) -> bool {
    c == ' ' || c == '\t' || c == '\n' || c == '\r'
}

/// Whether a word can start with `c`: an ASCII letter or `_`.
pub open spec fn is_word_start(c: char) -> bool {
    'a' <= c <= 'z' || 'A' <= c <= 'Z' || c == '_'
}

/// The value of an integer literal: its digits read in base ten, reduced modulo 2^64.
pub open spec fn literal_value(digits: Seq<char>) -> i64 {
    wrap_i64(decimal_value(digits))
}

/// The contents of a string literal: each backslash followed by `n` stands for a line feed,
/// every other character for itself.
pub open spec fn unescape(s: Seq<char>) -> Seq<char>
    decreases s.len(),
{
    if s.len() == 0 {
        s
    } else if s.len() >= 2 && s[0] == '\\' && s[1] == 'n' {
        seq!['\n'] + unescape(s.skip(2))
    } else {
        seq![s[0]] + unescape(s.skip(1))
    }
}

/// A word is a keyword if it is one of the eight reserved words, else an identifier.
pub open spec fn word_token(word: Seq<char>) -> SpecToken {
    if word == "while"@ {
        SpecToken::While
    } else if word == "if"@ {
        SpecToken::If
    } else if word == "else"@ {
        SpecToken::Else
    } else if word == "true"@ {
        SpecToken::True
    } else if word == "false"@ {
        SpecToken::False
    } else if word == "let"@ {
        SpecToken::Let
    } else if word == "in"@ {
        SpecToken::In
    } else if word == "print"@ {
        SpecToken::Print
    } else {
        SpecToken::Identifier(word)
    }
}

/// The character at position `i`, if there is one.
pub open spec fn char_at(s: Seq<char>, i: int) -> Option<char> {
    if 0 <= i < s.len() {
        Some(s[i])
    } else {
        None
    }
}

/// A two-character operator whose first character stands at `i`.
pub open spec fn operator_at(s: Seq<char>, i: int, second: char, token: SpecToken) -> Result<
    (Option<SpecToken>, int),
    LexError,
> {
    if char_at(s, i + 1) == Some(second) {
        Ok((Some(token), i + 2))
    } else {
        Err(LexError::MalformedOperator(s[i], char_at(s, i + 1)))
    }
}

/// What the lexer reads at position `i` of `s`: a token or white space, and the position after
/// it; or the reason why nothing can be read there.
pub open spec fn token_at(s: Seq<char>, i: int) -> Result<(Option<SpecToken>, int), LexError>
    recommends
        0 <= i < s.len(),
{
    let c = s[i];
    if is_digit(c) {
        let end = run_end(s, i, CharClass::Digit);
        Ok((Some(SpecToken::Integer(literal_value(s.subrange(i, end)))), end))
    } else if c == '(' {
        Ok((Some(SpecToken::OpenRoundParenthesis), i + 1))
    } else if c == ')' {
        Ok((Some(SpecToken::CloseRoundParenthesis), i + 1))
    } else if c == '{' {
        Ok((Some(SpecToken::OpenGraphParenthesis), i + 1))
    } else if c == '}' {
        Ok((Some(SpecToken::CloseGraphParenthesis), i + 1))
    } else if c == '[' {
        Ok((Some(SpecToken::OpenSquareParenthesis), i + 1))
    } else if c == ']' {
        Ok((Some(SpecToken::CloseSquareParenthesis), i + 1))
    } else if c == ';' {
        Ok((Some(SpecToken::Semicolon), i + 1))
    } else if c == '+' {
        Ok((Some(SpecToken::Addition), i + 1))
    } else if c == '*' {
        Ok((Some(SpecToken::Multiplication), i + 1))
    } else if c == '<' {
        Ok((Some(SpecToken::LessThan), i + 1))
    } else if c == '=' {
        operator_at(s, i, '=', SpecToken::Equality)
    } else if c == '|' {
        operator_at(s, i, '|', SpecToken::LogicalOr)
    } else if c == '!' {
        operator_at(s, i, '=', SpecToken::Disequality)
    } else if c == ':' {
        operator_at(s, i, '=', SpecToken::Assignment)
    } else if is_space(c) {
        Ok((None, i + 1))
    } else if c == '"' {
        let end = run_end(s, i + 1, CharClass::Quoted);
        if end < s.len() {
            Ok((Some(SpecToken::String(unescape(s.subrange(i + 1, end)))), end + 1))
        } else {
            Err(LexError::UnterminatedString)
        }
    } else if is_word_start(c) {
        let end = run_end(s, i + 1, CharClass::Word);
        Ok((Some(word_token(s.subrange(i, end))), end))
    } else {
        Err(LexError::UnrecognizedChar(c))
    }
}

/// The tokens of `s` from position `i` on, or the first error met.
pub open spec fn tokens_from(s: Seq<char>, i: int) -> Result<Seq<SpecToken>, LexError>
    decreases s.len() - i,
{
    if 0 <= i < s.len() {
        match token_at(s, i) {
            Err(e) => Err(e),
            Ok((found, next)) => {
                proof {
                    lemma_token_at_advances(s, i);
                }
                match tokens_from(s, next) {
                    Err(e) => Err(e),
                    Ok(rest) => match found {
                        Some(token) => Ok(seq![token] + rest),
                        None => Ok(rest),
                    },
                }
            },
        }
    } else {
        Ok(Seq::empty())
    }
}

/// The tokens of a whole source text.
pub open spec fn tokenize(s: Seq<char>) -> Result<Seq<SpecToken>, LexError> {
    tokens_from(s, 0)
}

/// The model of what the lexer returns.
pub open spec fn lex_view(r: Result<Vec<Token>, LexError>) -> Result<Seq<SpecToken>, LexError> {
    match r {
        Ok(tokens) => Ok(tokens.deep_view()),
        Err(e) => Err(e),
    }
}

/// A run ends at or after its start and within the text.
pub proof fn lemma_run_end_bounds(s: Seq<char>, from: int, class: CharClass)
    requires
        0 <= from <= s.len(),
    ensures
        from <= run_end(s, from, class) <= s.len(),
    decreases s.len() - from,
{
    if from < s.len() && accepts(class, s[from]) {
        lemma_run_end_bounds(s, from + 1, class);
    }
}

/// Whatever is read at a position of the text ends after it and within the text.
pub proof fn lemma_token_at_advances(s: Seq<char>, i: int)
    requires
        0 <= i < s.len(),
    ensures
        token_at(s, i) matches Ok((_, next)) ==> i < next <= s.len(),
{
    lemma_run_end_bounds(s, i + 1, CharClass::Digit);
    lemma_run_end_bounds(s, i + 1, CharClass::Quoted);
    lemma_run_end_bounds(s, i + 1, CharClass::Word);
}

/// Whether `c` may follow the first character of a word, given whether it is alphanumeric.
pub fn continues_word(c: char, is_alphanumeric: bool) -> (r: bool)
    ensures
        r == is_word_char(c, is_alphanumeric),
{
    if c <= '\u{7f}' {
        ('a' <= c && c <= 'z') || ('A' <= c && c <= 'Z') || ('0' <= c && c <= '9') || c == '_'
    } else {
        is_alphanumeric
    }
}

fn class_accepts(class: CharClass, c: char) -> (r: bool)
    ensures
        r == accepts(class, c),
{
    match class {
        CharClass::Digit => is_digit_char(c),
        CharClass::Word => continues_word(c, c.is_alphanumeric()),
        CharClass::Quoted => c != '"',
    }
}

/// Reads the maximal run of characters of `class` that starts at `from`.
pub fn scan_run(chars: &Vec<char>, from: usize, class: CharClass) -> (end: usize)
    requires
        from <= chars.len(),
    ensures
        end == run_end(chars@, from as int, class),
        from <= end <= chars.len(),
        forall|k: int| from <= k < end ==> accepts(class, #[trigger] chars@[k]),
{
    let mut end: usize = from;
    while end < chars.len() && class_accepts(class, chars[end])
        invariant
            from <= end <= chars.len(),
            run_end(chars@, from as int, class) == run_end(chars@, end as int, class),
            forall|k: int| from <= k < end ==> accepts(class, #[trigger] chars@[k]),
        decreases chars.len() - end,
    {
        end += 1;
    }
    end
}

/// The value of the integer literal `chars[from..end]`.
fn read_number(chars: &Vec<char>, from: usize, end: usize) -> (value: i64)
    requires
        from <= end <= chars.len(),
        forall|k: int| from <= k < end ==> is_digit(#[trigger] chars@[k]),
    ensures
        value == literal_value(chars@.subrange(from as int, end as int)),
{
    let mut value: i64 = 0;
    let mut k: usize = from;
    proof {
        assert(chars@.subrange(from as int, from as int) =~= Seq::<char>::empty());
        lemma_wrap_in_range(0);
    }
    while k < end
        invariant
            from <= k <= end <= chars.len(),
            forall|j: int| from <= j < end ==> is_digit(#[trigger] chars@[j]),
            value == literal_value(chars@.subrange(from as int, k as int)),
        decreases end - k,
    {
        let d = digit_of(chars[k]);
        proof {
            let before = chars@.subrange(from as int, k as int);
            let after = chars@.subrange(from as int, k + 1);
            assert(after.drop_last() =~= before);
            assert(after.last() == chars@[k as int]);
            assert(decimal_value(after) == decimal_value(before) * 10 + d);
            lemma_wrap_push_digit(decimal_value(before), d);
        }
        value = value.wrapping_mul(10).wrapping_add(d);
        k += 1;
    }
    value
}

/// The contents of the string literal whose body is `chars[from..to]`.
fn read_string(chars: &Vec<char>, from: usize, to: usize) -> (out: String)
    requires
        from <= to <= chars.len(),
    ensures
        out@ == unescape(chars@.subrange(from as int, to as int)),
{
    let ghost body = chars@.subrange(from as int, to as int);
    let mut out = String::new();
    let mut k: usize = from;
    assert(body.skip(0) =~= body);
    while k < to
        invariant
            from <= k <= to <= chars.len(),
            body == chars@.subrange(from as int, to as int),
            unescape(body) == out@ + unescape(body.skip(k - from)),
        decreases to - k,
    {
        let ghost rest = body.skip(k - from);
        let ghost before = out@;
        if chars[k] == '\\' && k + 1 < to && chars[k + 1] == 'n' {
            out.push('\n');
            k += 2;
            assert(rest.skip(2) =~= body.skip(k - from));
            assert(before + (seq!['\n'] + unescape(rest.skip(2))) =~= out@ + unescape(
                rest.skip(2),
            ));
        } else {
            out.push(chars[k]);
            k += 1;
            assert(rest.skip(1) =~= body.skip(k - from));
            assert(before + (seq![rest[0]] + unescape(rest.skip(1))) =~= out@ + unescape(
                rest.skip(1),
            ));
        }
    }
    assert(unescape(body.skip(to - from)) =~= Seq::<char>::empty());
    assert(out@ + Seq::<char>::empty() =~= out@);
    out
}

fn text_is(word: &String, literal: &str) -> (r: bool)
    ensures
        r == (word@ == literal@),
{
    let other = String::from_str(literal);
    *word == other
}

/// The keyword that `word` spells, or the identifier it is.
fn classify_word(word: String) -> (token: Token)
    ensures
        token.deep_view() == word_token(word@),
{
    if text_is(&word, "while") {
        Token::While
    } else if text_is(&word, "if") {
        Token::If
    } else if text_is(&word, "else") {
        Token::Else
    } else if text_is(&word, "true") {
        Token::True
    } else if text_is(&word, "false") {
        Token::False
    } else if text_is(&word, "let") {
        Token::Let
    } else if text_is(&word, "in") {
        Token::In
    } else if text_is(&word, "print") {
        Token::Print
    } else {
        Token::Identifier(word)
    }
}

/// The model of what reading at one position returns.
pub open spec fn step_view(r: Result<(Option<Token>, usize), LexError>) -> Result<
    (Option<SpecToken>, int),
    LexError,
> {
    match r {
        Ok((found, next)) => Ok((found.deep_view(), next as int)),
        Err(e) => Err(e),
    }
}

fn read_operator(chars: &Vec<char>, i: usize, second: char, token: Token) -> (r: Result<
    (Option<Token>, usize),
    LexError,
>)
    requires
        i < chars.len(),
    ensures
        step_view(r) == operator_at(chars@, i as int, second, token.deep_view()),
{
    if i + 1 < chars.len() {
        if chars[i + 1] == second {
            Ok((Some(token), i + 2))
        } else {
            Err(LexError::MalformedOperator(chars[i], Some(chars[i + 1])))
        }
    } else {
        Err(LexError::MalformedOperator(chars[i], None))
    }
}

/// Reads what stands at position `i`: a token or white space, and where it ends.
pub fn next_token(chars: &Vec<char>, i: usize) -> (r: Result<(Option<Token>, usize), LexError>)
    requires
        i < chars.len(),
    ensures
        step_view(r) == token_at(chars@, i as int),
        r matches Ok((_, next)) ==> i < next <= chars.len(),
{
    proof {
        lemma_token_at_advances(chars@, i as int);
    }
    let c = chars[i];
    if is_digit_char(c) {
        let end = scan_run(chars, i, CharClass::Digit);
        let value = read_number(chars, i, end);
        Ok((Some(Token::Integer(value)), end))
    } else if c == '(' {
        Ok((Some(Token::OpenRoundParenthesis), i + 1))
    } else if c == ')' {
        Ok((Some(Token::CloseRoundParenthesis), i + 1))
    } else if c == '{' {
        Ok((Some(Token::OpenGraphParenthesis), i + 1))
    } else if c == '}' {
        Ok((Some(Token::CloseGraphParenthesis), i + 1))
    } else if c == '[' {
        Ok((Some(Token::OpenSquareParenthesis), i + 1))
    } else if c == ']' {
        Ok((Some(Token::CloseSquareParenthesis), i + 1))
    } else if c == ';' {
        Ok((Some(Token::Semicolon), i + 1))
    } else if c == '+' {
        Ok((Some(Token::Addition), i + 1))
    } else if c == '*' {
        Ok((Some(Token::Multiplication), i + 1))
    } else if c == '<' {
        Ok((Some(Token::LessThan), i + 1))
    } else if c == '=' {
        read_operator(chars, i, '=', Token::Equality)
    } else if c == '|' {
        read_operator(chars, i, '|', Token::LogicalOr)
    } else if c == '!' {
        read_operator(chars, i, '=', Token::Disequality)
    } else if c == ':' {
        read_operator(chars, i, '=', Token::Assignment)
    } else if c == ' ' || c == '\t' || c == '\n' || c == '\r' {
        Ok((None, i + 1))
    } else if c == '"' {
        let end = scan_run(chars, i + 1, CharClass::Quoted);
        if end < chars.len() {
            Ok((Some(Token::String(read_string(chars, i + 1, end))), end + 1))
        } else {
            Err(LexError::UnterminatedString)
        }
    } else if ('a' <= c && c <= 'z') || ('A' <= c && c <= 'Z') || c == '_' {
        let end = scan_run(chars, i + 1, CharClass::Word);
        let word = string_of(chars, i, end);
        Ok((Some(classify_word(word)), end))
    } else {
        Err(LexError::UnrecognizedChar(c))
    }
}

/// What is known of the whole text once `done` has been read and `rest` is what the remainder
/// gives.
pub open spec fn after_tokens(done: Seq<SpecToken>, rest: Result<Seq<SpecToken>, LexError>) -> Result<
    Seq<SpecToken>,
    LexError,
> {
    match rest {
        Ok(tokens) => Ok(done + tokens),
        Err(e) => Err(e),
    }
}

/// Splits a source text into its tokens.
///
/// White space separates tokens and yields none. The first character that starts no token, or
/// the first operator cut short, ends the scan with an error, and no token is returned.
pub fn parse(line: &str) -> (r: Result<Vec<Token>, LexError>)
    ensures
        lex_view(r) == tokenize(line@),
{
    let chars = chars_of(line);
    let mut tokens: Vec<Token> = Vec::new();
    let mut i: usize = 0;
    assert(tokens.deep_view() =~= Seq::<SpecToken>::empty());
    assert(after_tokens(tokens.deep_view(), tokens_from(line@, 0)) =~= tokens_from(line@, 0)) by {
        match tokens_from(line@, 0) {
            Ok(ts) => {
                assert(Seq::<SpecToken>::empty() + ts =~= ts);
            },
            Err(_) => {},
        }
    }
    while i < chars.len()
        invariant
            chars@ == line@,
            i <= chars.len(),
            tokenize(line@) == after_tokens(tokens.deep_view(), tokens_from(line@, i as int)),
        decreases chars.len() - i,
    {
        let ghost done = tokens.deep_view();
        match next_token(&chars, i) {
            Err(e) => {
                return Err(e);
            },
            Ok((found, next)) => {
                if let Some(token) = found {
                    tokens.push(token);
                    proof {
                        assert(tokens.deep_view() =~= done.push(token.deep_view()));
                        match tokens_from(line@, next as int) {
                            Ok(rest) => {
                                assert(done + (seq![token.deep_view()] + rest) =~= done.push(
                                    token.deep_view(),
                                ) + rest);
                            },
                            Err(_) => {},
                        }
                    }
                }
                i = next;
            },
        }
    }
    assert(tokens.deep_view() + Seq::<SpecToken>::empty() =~= tokens.deep_view());
    Ok(tokens)
}

/// A run reaches the end of the text if every character from its start on is of its class.
pub proof fn lemma_run_end_all(s: Seq<char>, from: int, class: CharClass)
    requires
        0 <= from <= s.len(),
        forall|k: int| from <= k < s.len() ==> accepts(class, #[trigger] s[k]),
    ensures
        run_end(s, from, class) == s.len(),
    decreases s.len() - from,
{
    if from < s.len() {
        lemma_run_end_all(s, from + 1, class);
    }
}

/// A numeral of at most 18 digits is lexed to one integer token, and writing that integer in
/// decimal gives the numeral back.
pub proof fn lemma_integer_literal_round_trip(s: Seq<char>)
    requires
        is_numeral(s),
        s.len() <= 18,
    ensures
        tokenize(s) == Ok::<Seq<SpecToken>, LexError>(
            seq![SpecToken::Integer(literal_value(s))],
        ),
        decimal_text(literal_value(s) as int) == s,
{
    assert(is_digit(s[0]));
    lemma_run_end_all(s, 0, CharClass::Digit);
    assert(s.subrange(0, s.len() as int) =~= s);
    let token = SpecToken::Integer(literal_value(s));
    assert(token_at(s, 0) == Ok::<(Option<SpecToken>, int), LexError>(
        (Some(token), s.len() as int),
    ));
    assert(tokens_from(s, s.len() as int) == Ok::<Seq<SpecToken>, LexError>(Seq::empty()));
    assert(seq![token] + Seq::<SpecToken>::empty() =~= seq![token]);
    lemma_decimal_value_bound(s);
    assert(pow10(s.len()) <= pow10(18)) by {
        lemma_pow10_monotonic(s.len(), 18);
    }
    assert(pow10(18) == 1_000_000_000_000_000_000) by {
        reveal_with_fuel(pow10, 19);
    }
    lemma_wrap_in_range(decimal_value(s));
    lemma_numeral_round_trip(s);
}

/// A word of ASCII letters, digits and `_` that starts with a letter or `_` is one token: the
/// keyword that it spells, or an identifier.
pub proof fn lemma_word_is_one_token(word: Seq<char>)
    requires
        word.len() > 0,
        is_word_start(word[0]),
        forall|k: int|
            0 <= k < word.len() ==> is_ascii_alphanumeric(#[trigger] word[k]) || word[k] == '_',
    ensures
        tokenize(word) == Ok::<Seq<SpecToken>, LexError>(seq![word_token(word)]),
{
    assert forall|k: int| 1 <= k < word.len() implies accepts(
        CharClass::Word,
        #[trigger] word[k],
    ) by {
        assert(is_ascii_alphanumeric(word[k]) || word[k] == '_');
    }
    lemma_run_end_all(word, 1, CharClass::Word);
    assert(word.subrange(0, word.len() as int) =~= word);
    let token = word_token(word);
    assert(token_at(word, 0) == Ok::<(Option<SpecToken>, int), LexError>(
        (Some(token), word.len() as int),
    ));
    assert(tokens_from(word, word.len() as int) == Ok::<Seq<SpecToken>, LexError>(Seq::empty()));
    assert(seq![token] + Seq::<SpecToken>::empty() =~= seq![token]);
}

} // verus!
