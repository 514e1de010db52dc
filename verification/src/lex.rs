//! The lexer: from source text to tokens, one token per call.

use vstd::prelude::*;
use vstd::string::StringExecFns;
use crate::number::{
    conversion_ok, converts, formats, formatting_ok, is_digit, is_number_lexeme, Text,
};
use crate::text::{chars_of, decimal, decimal_text, is_word, text_between};

verus! {

/// A token of the language. `S` is the type of the text that literal tokens
/// carry: `String` in running code, `Seq<char>` in contracts.
#[derive(Debug, PartialEq)]
pub enum Token<S = String> {
    LeftParen,
    RightParen,
    LeftBrace,
    RightBrace,
    Comma,
    Dot,
    Minus,
    Plus,
    Semicolon,
    Star,
    EqualEqual,
    Equal,
    BangEqual,
    Bang,
    LessEqual,
    Less,
    GreaterEqual,
    Greater,
    Slash,
    /// The text between the quotes.
    String(S),
    /// The encoding of the value, and the lexeme as written.
    Number(u64, S),
    Identifier(S),
    And,
    Class,
    Else,
    False,
    For,
    Fun,
    If,
    Nil,
    Or,
    Return,
    Super,
    This,
    True,
    Var,
    While,
    Print,
}

impl View for Token<String> {
    type V = Token<Text>;

    open spec fn view(&self) -> Token<Text> {
        match *self {
            Token::LeftParen => Token::LeftParen,
            Token::RightParen => Token::RightParen,
            Token::LeftBrace => Token::LeftBrace,
            Token::RightBrace => Token::RightBrace,
            Token::Comma => Token::Comma,
            Token::Dot => Token::Dot,
            Token::Minus => Token::Minus,
            Token::Plus => Token::Plus,
            Token::Semicolon => Token::Semicolon,
            Token::Star => Token::Star,
            Token::EqualEqual => Token::EqualEqual,
            Token::Equal => Token::Equal,
            Token::BangEqual => Token::BangEqual,
            Token::Bang => Token::Bang,
            Token::LessEqual => Token::LessEqual,
            Token::Less => Token::Less,
            Token::GreaterEqual => Token::GreaterEqual,
            Token::Greater => Token::Greater,
            Token::Slash => Token::Slash,
            Token::String(text) => Token::String(text@),
            Token::Number(bits, lexeme) => Token::Number(bits, lexeme@),
            Token::Identifier(name) => Token::Identifier(name@),
            Token::And => Token::And,
            Token::Class => Token::Class,
            Token::Else => Token::Else,
            Token::False => Token::False,
            Token::For => Token::For,
            Token::Fun => Token::Fun,
            Token::If => Token::If,
            Token::Nil => Token::Nil,
            Token::Or => Token::Or,
            Token::Return => Token::Return,
            Token::Super => Token::Super,
            Token::This => Token::This,
            Token::True => Token::True,
            Token::Var => Token::Var,
            Token::While => Token::While,
            Token::Print => Token::Print,
        }
    }
}

impl Clone for Token<String> {
    fn clone(&self) -> (copy: Self)
        ensures
            copy == *self,
    {
        match self {
            Token::LeftParen => Token::LeftParen,
            Token::RightParen => Token::RightParen,
            Token::LeftBrace => Token::LeftBrace,
            Token::RightBrace => Token::RightBrace,
            Token::Comma => Token::Comma,
            Token::Dot => Token::Dot,
            Token::Minus => Token::Minus,
            Token::Plus => Token::Plus,
            Token::Semicolon => Token::Semicolon,
            Token::Star => Token::Star,
            Token::EqualEqual => Token::EqualEqual,
            Token::Equal => Token::Equal,
            Token::BangEqual => Token::BangEqual,
            Token::Bang => Token::Bang,
            Token::LessEqual => Token::LessEqual,
            Token::Less => Token::Less,
            Token::GreaterEqual => Token::GreaterEqual,
            Token::Greater => Token::Greater,
            Token::Slash => Token::Slash,
            Token::String(text) => Token::String(text.clone()),
            Token::Number(bits, lexeme) => Token::Number(*bits, lexeme.clone()),
            Token::Identifier(name) => Token::Identifier(name.clone()),
            Token::And => Token::And,
            Token::Class => Token::Class,
            Token::Else => Token::Else,
            Token::False => Token::False,
            Token::For => Token::For,
            Token::Fun => Token::Fun,
            Token::If => Token::If,
            Token::Nil => Token::Nil,
            Token::Or => Token::Or,
            Token::Return => Token::Return,
            Token::Super => Token::Super,
            Token::This => Token::This,
            Token::True => Token::True,
            Token::Var => Token::Var,
            Token::While => Token::While,
            Token::Print => Token::Print,
        }
    }
}

/// The tokens of a list, each as the contracts see it.
pub open spec fn token_models(tokens: Seq<Token>) -> Seq<Token<Text>> {
    Seq::new(tokens.len(), |i: int| tokens[i]@)
}

/// What is wrong with the text at some place.
#[derive(Clone, Copy, Debug, PartialEq, Eq)]
pub enum LexingErrorKind {
    /// A string literal that no `"` closes.
    UnterminatedString,
    /// A character that starts no token.
    UnexpectedCharacter(char),
}

/// A lexical error and the line on which it was found; lines count from 1.
#[derive(Clone, Copy, Debug, PartialEq, Eq)]
pub struct LexingError {
    pub kind: LexingErrorKind,
    pub line_count: usize,
}

/// A character that can start a name.
pub open spec fn is_name_start(c: char) -> bool {
    ('a' <= c <= 'z') || ('A' <= c <= 'Z') || c == '_'
}

/// A character that can continue a name.
pub open spec fn is_name_part(c: char) -> bool {
    is_name_start(c) || is_digit(c)
}

/// The kinds of character at which a run of characters ends.
#[derive(Clone, Copy, Debug, PartialEq, Eq)]
pub enum Stop {
    /// Anything but a digit.
    NotDigit,
    /// Anything that cannot continue a name.
    NotNamePart,
    /// The end of a line.
    Newline,
    /// A `"`.
    Quote,
}

/// Whether a run that ends at `stop` ends at the character `c`.
pub open spec fn stops(stop: Stop, c: char) -> bool {
    match stop {
        Stop::NotDigit => !is_digit(c),
        Stop::NotNamePart => !is_name_part(c),
        Stop::Newline => c == '\n',
        Stop::Quote => c == '"',
    }
}

/// The first position at or behind `position` where the source ends or
/// holds a character at which the run stops.
pub open spec fn run_end(source: Text, position: nat, stop: Stop) -> nat
    decreases source.len() - position,
{
    if position < source.len() && !stops(stop, source[position as int]) {
        run_end(source, position + 1, stop)
    } else {
        position
    }
}

/// A run ends at or behind its start and inside the source, holds no
/// character at which it stops, and has such a character behind it unless the
/// source ends there.
pub proof fn lemma_run_end(source: Text, position: nat, stop: Stop)
    requires
        position <= source.len(),
    ensures
        position <= run_end(source, position, stop) <= source.len(),
        forall|i: int|
            position <= i < run_end(source, position, stop) ==> !stops(stop, #[trigger] source[i]),
        run_end(source, position, stop) < source.len() ==> stops(
            stop,
            source[run_end(source, position, stop) as int],
        ),
    decreases source.len() - position,
{
    if position < source.len() && !stops(stop, source[position as int]) {
        lemma_run_end(source, position + 1, stop);
    }
}

/// The end of the number literal whose first digit stands at `position`:
/// behind its digits, and behind one `.` with the digits that follow it if
/// the digits are followed by a `.`.
pub open spec fn number_end(source: Text, position: nat) -> nat {
    let whole = run_end(source, position + 1, Stop::NotDigit);
    if whole < source.len() && source[whole as int] == '.' {
        run_end(source, whole + 1, Stop::NotDigit)
    } else {
        whole
    }
}

/// The keyword that a word is, if it is one.
pub open spec fn keyword(word: Text) -> Option<Token<Text>> {
    if word == "and"@ {
        Some(Token::And)
    } else if word == "class"@ {
        Some(Token::Class)
    } else if word == "else"@ {
        Some(Token::Else)
    } else if word == "false"@ {
        Some(Token::False)
    } else if word == "for"@ {
        Some(Token::For)
    } else if word == "fun"@ {
        Some(Token::Fun)
    } else if word == "if"@ {
        Some(Token::If)
    } else if word == "nil"@ {
        Some(Token::Nil)
    } else if word == "or"@ {
        Some(Token::Or)
    } else if word == "return"@ {
        Some(Token::Return)
    } else if word == "super"@ {
        Some(Token::Super)
    } else if word == "this"@ {
        Some(Token::This)
    } else if word == "true"@ {
        Some(Token::True)
    } else if word == "var"@ {
        Some(Token::Var)
    } else if word == "while"@ {
        Some(Token::While)
    } else if word == "print"@ {
        Some(Token::Print)
    } else {
        None
    }
}

/// The token that a word is: its keyword, or else an identifier.
pub open spec fn word_token(word: Text) -> Token<Text> {
    match keyword(word) {
        Some(token) => token,
        None => Token::Identifier(word),
    }
}

/// The character at a position, if the source reaches that far.
pub open spec fn char_at(source: Text, position: nat) -> Option<char> {
    if position < source.len() {
        Some(source[position as int])
    } else {
        None
    }
}

/// A token or an error, and the position behind it.
pub struct Lexeme {
    pub item: Result<Token<Text>, LexingErrorKind>,
    pub end: nat,
}

/// `token` if the character behind `position` is not `=`, and `with_equal`
/// if it is.
pub open spec fn one_or_two(
    source: Text,
    position: nat,
    token: Token<Text>,
    with_equal: Token<Text>,
) -> Lexeme {
    if char_at(source, position + 1) == Some('=') {
        Lexeme { item: Ok(with_equal), end: position + 2 }
    } else {
        Lexeme { item: Ok(token), end: position + 1 }
    }
}

/// The token that starts at `position`, where the source holds a character
/// that is neither blank nor the start of a comment. `value` gives the
/// encoding of a number lexeme.
pub open spec fn lexeme_at(value: spec_fn(Text) -> u64, source: Text, position: nat) -> Lexeme {
    let c = source[position as int];
    if c == '(' {
        Lexeme { item: Ok(Token::LeftParen), end: position + 1 }
    } else if c == ')' {
        Lexeme { item: Ok(Token::RightParen), end: position + 1 }
    } else if c == '{' {
        Lexeme { item: Ok(Token::LeftBrace), end: position + 1 }
    } else if c == '}' {
        Lexeme { item: Ok(Token::RightBrace), end: position + 1 }
    } else if c == ',' {
        Lexeme { item: Ok(Token::Comma), end: position + 1 }
    } else if c == '.' {
        Lexeme { item: Ok(Token::Dot), end: position + 1 }
    } else if c == '-' {
        Lexeme { item: Ok(Token::Minus), end: position + 1 }
    } else if c == '+' {
        Lexeme { item: Ok(Token::Plus), end: position + 1 }
    } else if c == ';' {
        Lexeme { item: Ok(Token::Semicolon), end: position + 1 }
    } else if c == '*' {
        Lexeme { item: Ok(Token::Star), end: position + 1 }
    } else if c == '/' {
        Lexeme { item: Ok(Token::Slash), end: position + 1 }
    } else if c == '=' {
        one_or_two(source, position, Token::Equal, Token::EqualEqual)
    } else if c == '!' {
        one_or_two(source, position, Token::Bang, Token::BangEqual)
    } else if c == '<' {
        one_or_two(source, position, Token::Less, Token::LessEqual)
    } else if c == '>' {
        one_or_two(source, position, Token::Greater, Token::GreaterEqual)
    } else if c == '"' {
        let close = run_end(source, position + 1, Stop::Quote);
        if close < source.len() {
            Lexeme {
                item: Ok(Token::String(source.subrange(position + 1 as int, close as int))),
                end: close + 1,
            }
        } else {
            Lexeme { item: Err(LexingErrorKind::UnterminatedString), end: source.len() }
        }
    } else if is_digit(c) {
        let end = number_end(source, position);
        let lexeme = source.subrange(position as int, end as int);
        Lexeme { item: Ok(Token::Number(value(lexeme), lexeme)), end }
    } else if is_name_start(c) {
        let end = run_end(source, position + 1, Stop::NotNamePart);
        Lexeme { item: Ok(word_token(source.subrange(position as int, end as int))), end }
    } else {
        Lexeme { item: Err(LexingErrorKind::UnexpectedCharacter(c)), end: position + 1 }
    }
}

/// One step of the lexer: the next token or error, if there is one, and the
/// position and line at which the lexer stands afterwards.
pub struct Scan {
    pub item: Option<Result<Token<Text>, LexingErrorKind>>,
    pub position: nat,
    pub line: nat,
}

/// The step that the lexer makes from `position` on line `line`. Blanks and
/// tabs are skipped, a line feed is skipped and counted, and a `//` hides the
/// rest of its line.
pub open spec fn scan(value: spec_fn(Text) -> u64, source: Text, position: nat, line: nat) -> Scan
    decreases source.len() - position,
{
    if position >= source.len() {
        Scan { item: None, position, line }
    } else {
        let c = source[position as int];
        if c == ' ' || c == '\t' {
            scan(value, source, position + 1, line)
        } else if c == '\n' {
            scan(value, source, position + 1, line + 1)
        } else if c == '/' && char_at(source, position + 1) == Some('/') {
            proof {
                lemma_run_end(source, position + 2, Stop::Newline);
            }
            scan(value, source, run_end(source, position + 2, Stop::Newline), line)
        } else {
            let lexeme = lexeme_at(value, source, position);
            Scan { item: Some(lexeme.item), position: lexeme.end, line }
        }
    }
}

/// A lexer over one source text. Each call of `next` gives the next token.
pub struct Lexer {
    chars: Vec<char>,
    position: usize,
    /// How many line feeds lie before `position`, outside of strings.
    lines_passed: usize,
}

impl Lexer {
    /// The source text.
    pub closed spec fn source(&self) -> Text {
        self.chars@
    }

    /// How many characters have been read.
    pub closed spec fn position(&self) -> nat {
        self.position as nat
    }

    /// The line, counted from 1, on which the next character stands.
    pub closed spec fn line(&self) -> nat {
        (self.lines_passed + 1) as nat
    }

    /// The lexer stands inside its source, and has passed no more line
    /// feeds than characters.
    #[verifier::type_invariant]
    spec fn wf(&self) -> bool {
        self.lines_passed <= self.position <= self.chars.len()
    }

    /// A lexer at the start of a source, on line 1.
    pub fn new(file_content: &str) -> (lexer: Self)
        ensures
            lexer.source() == file_content@,
            lexer.position() == 0,
            lexer.line() == 1,
    {
        Lexer { chars: chars_of(file_content), position: 0, lines_passed: 0 }
    }
}

/// A number literal is a number lexeme: what the converter is asked for.
pub proof fn lemma_number_lexeme(source: Text, position: nat)
    requires
        position < source.len(),
        is_digit(source[position as int]),
    ensures
        position < number_end(source, position) <= source.len(),
        is_number_lexeme(source.subrange(position as int, number_end(source, position) as int)),
{
    let whole = run_end(source, position + 1, Stop::NotDigit);
    lemma_run_end(source, position + 1, Stop::NotDigit);
    let end = number_end(source, position);
    if whole < source.len() && source[whole as int] == '.' {
        lemma_run_end(source, whole + 1, Stop::NotDigit);
    }
    let lexeme = source.subrange(position as int, end as int);
    assert forall|i: int| 0 <= i < lexeme.len() implies is_digit(#[trigger] lexeme[i]) || lexeme[i]
        == '.' by {
        assert(lexeme[i] == source[position + i]);
    }
    assert forall|i: int, j: int|
        0 <= i < lexeme.len() && 0 <= j < lexeme.len() && #[trigger] lexeme[i] == '.'
            && #[trigger] lexeme[j] == '.' implies i == j by {
        assert(lexeme[i] == source[position + i]);
        assert(lexeme[j] == source[position + j]);
    }
}

/// The outcome of lexing one token as the contracts see it.
pub open spec fn lexeme_model(item: Result<Token, LexingErrorKind>) -> Result<
    Token<Text>,
    LexingErrorKind,
> {
    match item {
        Ok(token) => Ok(token@),
        Err(kind) => Err(kind),
    }
}

/// The outcome of one step of the lexer as the contracts see it.
pub open spec fn step_model(item: Option<Result<Token, LexingError>>) -> Option<
    Result<Token<Text>, LexingErrorKind>,
> {
    match item {
        None => None,
        Some(Ok(token)) => Some(Ok(token@)),
        Some(Err(error)) => Some(Err(error.kind)),
    }
}

fn stops_at(stop: Stop, c: char) -> (ends: bool)
    ensures
        ends == stops(stop, c),
{
    let digit = '0' <= c && c <= '9';
    match stop {
        Stop::NotDigit => !digit,
        Stop::NotNamePart => !(('a' <= c && c <= 'z') || ('A' <= c && c <= 'Z') || c == '_'
            || digit),
        Stop::Newline => c == '\n',
        Stop::Quote => c == '"',
    }
}

fn run_end_of(chars: &Vec<char>, position: usize, stop: Stop) -> (end: usize)
    requires
        position <= chars.len(),
    ensures
        end == run_end(chars@, position as nat, stop),
        position <= end <= chars.len(),
{
    let mut end = position;
    while end < chars.len() && !stops_at(stop, chars[end])
        invariant
            position <= end <= chars.len(),
            run_end(chars@, end as nat, stop) == run_end(chars@, position as nat, stop),
        decreases chars.len() - end,
    {
        end = end + 1;
    }
    end
}

fn word_token_of(chars: &Vec<char>, from: usize, to: usize) -> (token: Token)
    requires
        from <= to <= chars.len(),
    ensures
        token@ == word_token(chars@.subrange(from as int, to as int)),
{
    if is_word(chars, from, to, "and") {
        Token::And
    } else if is_word(chars, from, to, "class") {
        Token::Class
    } else if is_word(chars, from, to, "else") {
        Token::Else
    } else if is_word(chars, from, to, "false") {
        Token::False
    } else if is_word(chars, from, to, "for") {
        Token::For
    } else if is_word(chars, from, to, "fun") {
        Token::Fun
    } else if is_word(chars, from, to, "if") {
        Token::If
    } else if is_word(chars, from, to, "nil") {
        Token::Nil
    } else if is_word(chars, from, to, "or") {
        Token::Or
    } else if is_word(chars, from, to, "return") {
        Token::Return
    } else if is_word(chars, from, to, "super") {
        Token::Super
    } else if is_word(chars, from, to, "this") {
        Token::This
    } else if is_word(chars, from, to, "true") {
        Token::True
    } else if is_word(chars, from, to, "var") {
        Token::Var
    } else if is_word(chars, from, to, "while") {
        Token::While
    } else if is_word(chars, from, to, "print") {
        Token::Print
    } else {
        Token::Identifier(text_between(chars, from, to))
    }
}

impl Lexer {
    /// Whether the character behind the next one is `=`.
    fn equal_follows(&self) -> (follows: bool)
        requires
            self.position < self.chars.len(),
        ensures
            follows == (char_at(self.chars@, self.position as nat + 1) == Some('=')),
    {
        self.position + 1 < self.chars.len() && self.chars[self.position + 1] == '='
    }

    /// Reads the token that starts at the next character, which is neither
    /// blank nor the start of a comment.
    fn take_lexeme<C: Fn(String) -> u64>(&mut self, convert: &C) -> (item: Result<
        Token,
        LexingErrorKind,
    >)
        requires
            old(self).position < old(self).chars.len(),
            conversion_ok(*convert),
        ensures
            final(self).chars@ == old(self).chars@,
            final(self).lines_passed == old(self).lines_passed,
            old(self).position < final(self).position <= final(self).chars.len(),
            forall|value: spec_fn(Text) -> u64| #[trigger]
                converts(*convert, value) ==> {
                    let lexeme = lexeme_at(value, old(self).chars@, old(self).position as nat);
                    &&& final(self).position == lexeme.end
                    &&& lexeme_model(item) == lexeme.item
                },
    {
        proof {
            use_type_invariant(&*self);
        }
        let start = self.position;
        let c = self.chars[start];
        if c == '(' {
            self.position = start + 1;
            Ok(Token::LeftParen)
        } else if c == ')' {
            self.position = start + 1;
            Ok(Token::RightParen)
        } else if c == '{' {
            self.position = start + 1;
            Ok(Token::LeftBrace)
        } else if c == '}' {
            self.position = start + 1;
            Ok(Token::RightBrace)
        } else if c == ',' {
            self.position = start + 1;
            Ok(Token::Comma)
        } else if c == '.' {
            self.position = start + 1;
            Ok(Token::Dot)
        } else if c == '-' {
            self.position = start + 1;
            Ok(Token::Minus)
        } else if c == '+' {
            self.position = start + 1;
            Ok(Token::Plus)
        } else if c == ';' {
            self.position = start + 1;
            Ok(Token::Semicolon)
        } else if c == '*' {
            self.position = start + 1;
            Ok(Token::Star)
        } else if c == '/' {
            self.position = start + 1;
            Ok(Token::Slash)
        } else if c == '=' {
            if self.equal_follows() {
                self.position = start + 2;
                Ok(Token::EqualEqual)
            } else {
                self.position = start + 1;
                Ok(Token::Equal)
            }
        } else if c == '!' {
            if self.equal_follows() {
                self.position = start + 2;
                Ok(Token::BangEqual)
            } else {
                self.position = start + 1;
                Ok(Token::Bang)
            }
        } else if c == '<' {
            if self.equal_follows() {
                self.position = start + 2;
                Ok(Token::LessEqual)
            } else {
                self.position = start + 1;
                Ok(Token::Less)
            }
        } else if c == '>' {
            if self.equal_follows() {
                self.position = start + 2;
                Ok(Token::GreaterEqual)
            } else {
                self.position = start + 1;
                Ok(Token::Greater)
            }
        } else if c == '"' {
            let close = run_end_of(&self.chars, start + 1, Stop::Quote);
            if close < self.chars.len() {
                let text = text_between(&self.chars, start + 1, close);
                self.position = close + 1;
                Ok(Token::String(text))
            } else {
                self.position = self.chars.len();
                Err(LexingErrorKind::UnterminatedString)
            }
        } else if '0' <= c && c <= '9' {
            proof {
                lemma_number_lexeme(self.chars@, start as nat);
            }
            let whole = run_end_of(&self.chars, start + 1, Stop::NotDigit);
            let end = if whole < self.chars.len() && self.chars[whole] == '.' {
                run_end_of(&self.chars, whole + 1, Stop::NotDigit)
            } else {
                whole
            };
            let lexeme = text_between(&self.chars, start, end);
            let bits = convert(lexeme.clone());
            self.position = end;
            Ok(Token::Number(bits, lexeme))
        } else if ('a' <= c && c <= 'z') || ('A' <= c && c <= 'Z') || c == '_' {
            let end = run_end_of(&self.chars, start + 1, Stop::NotNamePart);
            let token = word_token_of(&self.chars, start, end);
            self.position = end;
            Ok(token)
        } else {
            self.position = start + 1;
            Err(LexingErrorKind::UnexpectedCharacter(c))
        }
    }

    /// The next token of the source, or the next lexical error with the
    /// line on which it stands; `None` once the source is used up. After an
    /// error the lexer goes on behind the offending text.
    pub fn next<C: Fn(String) -> u64>(&mut self, convert: &C) -> (item: Option<
        Result<Token, LexingError>,
    >)
        requires
            conversion_ok(*convert),
        ensures
            final(self).source() == old(self).source(),
            old(self).position() <= final(self).position() <= final(self).source().len(),
            item is Some ==> old(self).position() < final(self).position(),
            forall|value: spec_fn(Text) -> u64| #[trigger]
                converts(*convert, value) ==> {
                    let step = scan(
                        value,
                        old(self).source(),
                        old(self).position(),
                        old(self).line(),
                    );
                    &&& step_model(item) == step.item
                    &&& final(self).position() == step.position
                    &&& final(self).line() == step.line
                    &&& item matches Some(Err(error)) ==> error.line_count == step.line
                },
    {
        loop
            invariant
                conversion_ok(*convert),
                self.chars@ == old(self).chars@,
                forall|value: spec_fn(Text) -> u64| #[trigger]
                    converts(*convert, value) ==> scan(
                        value,
                        self.chars@,
                        self.position as nat,
                        (self.lines_passed + 1) as nat,
                    ) == scan(value, old(self).source(), old(self).position(), old(self).line()),
                self.position >= old(self).position,
            decreases self.chars.len() - self.position,
        {
            proof {
                use_type_invariant(&*self);
            }
            if self.position >= self.chars.len() {
                return None;
            }
            let c = self.chars[self.position];
            if c == ' ' || c == '\t' {
                self.position = self.position + 1;
            } else if c == '\n' {
                self.position = self.position + 1;
                self.lines_passed = self.lines_passed + 1;
            } else if c == '/' && self.position + 1 < self.chars.len() && self.chars[self.position
                + 1] == '/' {
                self.position = run_end_of(&self.chars, self.position + 2, Stop::Newline);
            } else {
                let line_count = self.lines_passed + 1;
                return match self.take_lexeme(convert) {
                    Ok(token) => Some(Ok(token)),
                    Err(kind) => Some(Err(LexingError { kind, line_count })),
                };
            }
        }
    }
}

/// The line that lists a token: its kind, its lexeme and its value, which
/// is `null` but for strings and numbers. `format` renders the value of a
/// number.
pub open spec fn token_text(format: spec_fn(u64) -> Text, token: Token<Text>) -> Text {
    match token {
        Token::LeftParen => "LEFT_PAREN ( null"@,
        Token::RightParen => "RIGHT_PAREN ) null"@,
        Token::LeftBrace => "LEFT_BRACE { null"@,
        Token::RightBrace => "RIGHT_BRACE } null"@,
        Token::Comma => "COMMA , null"@,
        Token::Dot => "DOT . null"@,
        Token::Minus => "MINUS - null"@,
        Token::Plus => "PLUS + null"@,
        Token::Semicolon => "SEMICOLON ; null"@,
        Token::Star => "STAR * null"@,
        Token::EqualEqual => "EQUAL_EQUAL == null"@,
        Token::Equal => "EQUAL = null"@,
        Token::BangEqual => "BANG_EQUAL != null"@,
        Token::Bang => "BANG ! null"@,
        Token::LessEqual => "LESS_EQUAL <= null"@,
        Token::Less => "LESS < null"@,
        Token::GreaterEqual => "GREATER_EQUAL >= null"@,
        Token::Greater => "GREATER > null"@,
        Token::Slash => "SLASH / null"@,
        Token::String(text) => "STRING \""@ + text + "\" "@ + text,
        Token::Number(bits, lexeme) => "NUMBER "@ + lexeme + " "@ + format(bits),
        Token::Identifier(name) => "IDENTIFIER "@ + name + " null"@,
        Token::And => "AND and null"@,
        Token::Class => "CLASS class null"@,
        Token::Else => "ELSE else null"@,
        Token::False => "FALSE false null"@,
        Token::For => "FOR for null"@,
        Token::Fun => "FUN fun null"@,
        Token::If => "IF if null"@,
        Token::Nil => "NIL nil null"@,
        Token::Or => "OR or null"@,
        Token::Return => "RETURN return null"@,
        Token::Super => "SUPER super null"@,
        Token::This => "THIS this null"@,
        Token::True => "TRUE true null"@,
        Token::Var => "VAR var null"@,
        Token::While => "WHILE while null"@,
        Token::Print => "PRINT print null"@,
    }
}

impl Token<String> {
    /// The line that lists this token.
    pub fn to_text<F: Fn(u64) -> String>(&self, format: &F) -> (text: String)
        requires
            formatting_ok(*format),
        ensures
            forall|render: spec_fn(u64) -> Text| #[trigger]
                formats(*format, render) ==> text@ == token_text(render, self@),
    {
        match self {
            Token::LeftParen => "LEFT_PAREN ( null".to_owned(),
            Token::RightParen => "RIGHT_PAREN ) null".to_owned(),
            Token::LeftBrace => "LEFT_BRACE { null".to_owned(),
            Token::RightBrace => "RIGHT_BRACE } null".to_owned(),
            Token::Comma => "COMMA , null".to_owned(),
            Token::Dot => "DOT . null".to_owned(),
            Token::Minus => "MINUS - null".to_owned(),
            Token::Plus => "PLUS + null".to_owned(),
            Token::Semicolon => "SEMICOLON ; null".to_owned(),
            Token::Star => "STAR * null".to_owned(),
            Token::EqualEqual => "EQUAL_EQUAL == null".to_owned(),
            Token::Equal => "EQUAL = null".to_owned(),
            Token::BangEqual => "BANG_EQUAL != null".to_owned(),
            Token::Bang => "BANG ! null".to_owned(),
            Token::LessEqual => "LESS_EQUAL <= null".to_owned(),
            Token::Less => "LESS < null".to_owned(),
            Token::GreaterEqual => "GREATER_EQUAL >= null".to_owned(),
            Token::Greater => "GREATER > null".to_owned(),
            Token::Slash => "SLASH / null".to_owned(),
            Token::String(literal) => {
                let mut text = "STRING \"".to_owned();
                text.append(literal.as_str());
                text.append("\" ");
                text.append(literal.as_str());
                text
            },
            Token::Number(bits, lexeme) => {
                let mut text = "NUMBER ".to_owned();
                text.append(lexeme.as_str());
                text.append(" ");
                let value = format(*bits);
                text.append(value.as_str());
                text
            },
            Token::Identifier(name) => {
                let mut text = "IDENTIFIER ".to_owned();
                text.append(name.as_str());
                text.append(" null");
                text
            },
            Token::And => "AND and null".to_owned(),
            Token::Class => "CLASS class null".to_owned(),
            Token::Else => "ELSE else null".to_owned(),
            Token::False => "FALSE false null".to_owned(),
            Token::For => "FOR for null".to_owned(),
            Token::Fun => "FUN fun null".to_owned(),
            Token::If => "IF if null".to_owned(),
            Token::Nil => "NIL nil null".to_owned(),
            Token::Or => "OR or null".to_owned(),
            Token::Return => "RETURN return null".to_owned(),
            Token::Super => "SUPER super null".to_owned(),
            Token::This => "THIS this null".to_owned(),
            Token::True => "TRUE true null".to_owned(),
            Token::Var => "VAR var null".to_owned(),
            Token::While => "WHILE while null".to_owned(),
            Token::Print => "PRINT print null".to_owned(),
        }
    }
}

/// The message of a lexical error of some kind on some line: the line, then
/// what is wrong.
pub open spec fn lexing_error_text_at(kind: LexingErrorKind, line: nat) -> Text {
    "[line "@ + decimal_text(line) + "] Error: "@ + match kind {
        LexingErrorKind::UnterminatedString => "Unterminated string."@,
        LexingErrorKind::UnexpectedCharacter(c) => "Unexpected character: "@.push(c),
    }
}

/// The message of a lexical error.
pub open spec fn lexing_error_text(error: LexingError) -> Text {
    lexing_error_text_at(error.kind, error.line_count as nat)
}

impl LexingError {
    /// The message of this error.
    pub fn to_text(&self) -> (text: String)
        ensures
            text@ == lexing_error_text(*self),
    {
        let mut text = "[line ".to_owned();
        let line = decimal(self.line_count);
        text.append(line.as_str());
        text.append("] Error: ");
        match self.kind {
            LexingErrorKind::UnterminatedString => {
                text.append("Unterminated string.");
                text
            },
            LexingErrorKind::UnexpectedCharacter(c) => {
                text.append("Unexpected character: ");
                text.push(c);
                assert(text@ =~= lexing_error_text(*self));
                text
            },
        }
    }
}

/// A step of the lexer that gives a token or an error goes forward, and no
/// step leaves the source.
pub proof fn lemma_scan_advances(value: spec_fn(Text) -> u64, source: Text, position: nat, line: nat)
    requires
        position <= source.len(),
    ensures
        position <= scan(value, source, position, line).position <= source.len(),
        scan(value, source, position, line).item is Some ==> position < scan(
            value,
            source,
            position,
            line,
        ).position,
        scan(value, source, position, line).line >= line,
    decreases source.len() - position,
{
    if position < source.len() {
        let c = source[position as int];
        if c == ' ' || c == '\t' {
            lemma_scan_advances(value, source, position + 1, line);
        } else if c == '\n' {
            lemma_scan_advances(value, source, position + 1, line + 1);
        } else if c == '/' && char_at(source, position + 1) == Some('/') {
            lemma_run_end(source, position + 2, Stop::Newline);
            lemma_scan_advances(
                value,
                source,
                run_end(source, position + 2, Stop::Newline),
                line,
            );
        } else {
            lemma_run_end(source, position + 1, Stop::Quote);
            lemma_run_end(source, position + 1, Stop::NotNamePart);
            if is_digit(c) {
                lemma_number_lexeme(source, position);
            }
        }
    }
}

/// Everything that the lexer gives from `position` on line `line` to the
/// end of the source, in order: tokens, and errors with their lines.
pub open spec fn lex_from(value: spec_fn(Text) -> u64, source: Text, position: nat, line: nat)
    -> Seq<Result<Token<Text>, LexingError>>
    decreases source.len() - position,
{
    let step = scan(value, source, position, line);
    match step.item {
        None => Seq::empty(),
        Some(item) => {
            if position <= source.len() {
                proof {
                    lemma_scan_advances(value, source, position, line);
                }
                seq![
                    match item {
                        Ok(token) => Ok(token),
                        Err(kind) => Err(LexingError { kind, line_count: step.line as usize }),
                    },
                ] + lex_from(value, source, step.position, step.line)
            } else {
                Seq::empty()
            }
        },
    }
}

/// Everything that the lexer gives for a source, from its start on line 1.
pub open spec fn lex(value: spec_fn(Text) -> u64, source: Text) -> Seq<
    Result<Token<Text>, LexingError>,
> {
    lex_from(value, source, 0, 1)
}

/// The first error among what the lexer gave, if there is one.
pub open spec fn first_error(items: Seq<Result<Token<Text>, LexingError>>) -> Option<LexingError>
    decreases items.len(),
{
    if items.len() == 0 {
        None
    } else {
        match items[0] {
            Err(error) => Some(error),
            Ok(_) => first_error(items.drop_first()),
        }
    }
}

/// A run does not depend on what stands before it.
pub proof fn lemma_run_end_shift(front: Text, rest: Text, position: nat, stop: Stop)
    requires
        position <= rest.len(),
    ensures
        run_end(front + rest, front.len() + position, stop) == front.len() + run_end(
            rest,
            position,
            stop,
        ),
    decreases rest.len() - position,
{
    if position < rest.len() {
        assert((front + rest)[front.len() + position as int] == rest[position as int]);
        if !stops(stop, rest[position as int]) {
            lemma_run_end_shift(front, rest, position + 1, stop);
        }
    }
}

/// A token does not depend on what stands before it.
pub proof fn lemma_lexeme_shift(value: spec_fn(Text) -> u64, front: Text, rest: Text, position: nat)
    requires
        position < rest.len(),
    ensures
        lexeme_at(value, front + rest, front.len() + position) == (Lexeme {
            item: lexeme_at(value, rest, position).item,
            end: front.len() + lexeme_at(value, rest, position).end,
        }),
{
    let whole = front + rest;
    let at: int = (front.len() + position) as int;
    let n: int = front.len() as int;
    let p: int = position as int;
    let c = rest[position as int];
    assert(whole[at] == c);
    assert(char_at(whole, (at + 1) as nat) == char_at(rest, position + 1)) by {
        if position + 1 < rest.len() {
            assert(whole[at + 1] == rest[p + 1]);
        }
    }
    if c == '"' {
        lemma_run_end_shift(front, rest, position + 1, Stop::Quote);
        lemma_run_end(rest, position + 1, Stop::Quote);
        let close = run_end(rest, position + 1, Stop::Quote);
        if close < rest.len() {
            assert(whole.subrange(at + 1, n + close) =~= rest.subrange(p + 1, close as int));
        }
    } else if is_digit(c) {
        lemma_run_end_shift(front, rest, position + 1, Stop::NotDigit);
        lemma_run_end(rest, position + 1, Stop::NotDigit);
        let whole_part = run_end(rest, position + 1, Stop::NotDigit);
        if whole_part < rest.len() {
            assert(whole[n + whole_part] == rest[whole_part as int]);
            lemma_run_end_shift(front, rest, whole_part + 1, Stop::NotDigit);
            lemma_run_end(rest, whole_part + 1, Stop::NotDigit);
        }
        let end = number_end(rest, position);
        assert(number_end(whole, at as nat) == n + end);
        assert(whole.subrange(at, n + end) =~= rest.subrange(p, end as int));
    } else if is_name_start(c) {
        lemma_run_end_shift(front, rest, position + 1, Stop::NotNamePart);
        lemma_run_end(rest, position + 1, Stop::NotNamePart);
        let end = run_end(rest, position + 1, Stop::NotNamePart);
        assert(whole.subrange(at, n + end) =~= rest.subrange(p, end as int));
    }
}

/// A step of the lexer does not depend on what stands before it.
pub proof fn lemma_scan_shift(
    value: spec_fn(Text) -> u64,
    front: Text,
    rest: Text,
    position: nat,
    line: nat,
)
    requires
        position <= rest.len(),
    ensures
        scan(value, front + rest, front.len() + position, line) == (Scan {
            item: scan(value, rest, position, line).item,
            position: front.len() + scan(value, rest, position, line).position,
            line: scan(value, rest, position, line).line,
        }),
    decreases rest.len() - position,
{
    let whole = front + rest;
    let at: int = (front.len() + position) as int;
    let n: int = front.len() as int;
    let p: int = position as int;
    if position < rest.len() {
        let c = rest[position as int];
        assert(whole[at] == c);
        assert(char_at(whole, (at + 1) as nat) == char_at(rest, position + 1)) by {
            if position + 1 < rest.len() {
                assert(whole[at + 1] == rest[p + 1]);
            }
        }
        if c == ' ' || c == '\t' {
            lemma_scan_shift(value, front, rest, position + 1, line);
        } else if c == '\n' {
            lemma_scan_shift(value, front, rest, position + 1, line + 1);
        } else if c == '/' && char_at(rest, position + 1) == Some('/') {
            lemma_run_end_shift(front, rest, position + 2, Stop::Newline);
            lemma_run_end(rest, position + 2, Stop::Newline);
            lemma_scan_shift(value, front, rest, run_end(rest, position + 2, Stop::Newline), line);
        } else {
            lemma_lexeme_shift(value, front, rest, position);
        }
    }
}

/// What the lexer gives does not depend on what stands before the place
/// where it starts.
pub proof fn lemma_lex_shift(
    value: spec_fn(Text) -> u64,
    front: Text,
    rest: Text,
    position: nat,
    line: nat,
)
    requires
        position <= rest.len(),
    ensures
        lex_from(value, front + rest, front.len() + position, line) == lex_from(
            value,
            rest,
            position,
            line,
        ),
    decreases rest.len() - position,
{
    lemma_scan_shift(value, front, rest, position, line);
    lemma_scan_advances(value, rest, position, line);
    let step = scan(value, rest, position, line);
    if step.item is Some {
        lemma_lex_shift(value, front, rest, step.position, step.line);
    }
}

/// The tokens of what the lexer gave in two parts are the tokens of the
/// first part, then those of the second; and there is no error in the whole
/// where there is none in either part.
pub proof fn lemma_tokens_of_parts(
    first: Seq<Result<Token<Text>, LexingError>>,
    second: Seq<Result<Token<Text>, LexingError>>,
)
    ensures
        tokens_of(first + second) == tokens_of(first) + tokens_of(second),
        first_error(first) is None && first_error(second) is None ==> first_error(first + second)
            is None,
    decreases first.len(),
{
    if first.len() == 0 {
        assert(first + second =~= second);
        assert(tokens_of(first) + tokens_of(second) =~= tokens_of(second));
    } else {
        let whole = first + second;
        assert(whole.drop_first() =~= first.drop_first() + second);
        lemma_tokens_of_parts(first.drop_first(), second);
        if first[0] is Ok {
            assert(seq![first[0]->Ok_0] + (tokens_of(first.drop_first()) + tokens_of(second))
                =~= (seq![first[0]->Ok_0] + tokens_of(first.drop_first())) + tokens_of(second));
        }
    }
}

/// There is a first error exactly when there is an error.
pub proof fn lemma_first_error(items: Seq<Result<Token<Text>, LexingError>>)
    ensures
        first_error(items) is Some <==> exists|i: int|
            0 <= i < items.len() && (#[trigger] items[i]) is Err,
    decreases items.len(),
{
    if items.len() > 0 {
        let rest = items.drop_first();
        lemma_first_error(rest);
        if items[0] is Ok {
            if first_error(items) is Some {
                let i = choose|i: int| 0 <= i < rest.len() && (#[trigger] rest[i]) is Err;
                assert(items[i + 1] is Err);
            } else {
                assert forall|i: int| 0 <= i < items.len() implies !((#[trigger] items[i]) is Err) by {
                    if i > 0 {
                        assert(rest[i - 1] == items[i]);
                    }
                }
            }
        }
    }
}

/// The tokens among what the lexer gave, in order.
pub open spec fn tokens_of(items: Seq<Result<Token<Text>, LexingError>>) -> Seq<Token<Text>>
    decreases items.len(),
{
    if items.len() == 0 {
        Seq::empty()
    } else {
        match items[0] {
            Ok(token) => seq![token] + tokens_of(items.drop_first()),
            Err(_) => tokens_of(items.drop_first()),
        }
    }
}

/// What the lexer gave, as the contracts see it.
pub open spec fn lexed_model(item: Result<Token, LexingError>) -> Result<Token<Text>, LexingError> {
    match item {
        Ok(token) => Ok(token@),
        Err(error) => Err(error),
    }
}

/// What the lexer gave in a row, as the contracts see it.
pub open spec fn lexed_models(items: Seq<Result<Token, LexingError>>) -> Seq<
    Result<Token<Text>, LexingError>,
> {
    Seq::new(items.len(), |i: int| lexed_model(items[i]))
}

/// Lexes a whole source: every token and every error, in order.
pub fn tokenize<C: Fn(String) -> u64>(source: &str, convert: &C) -> (items: Vec<
    Result<Token, LexingError>,
>)
    requires
        conversion_ok(*convert),
    ensures
        forall|value: spec_fn(Text) -> u64| #[trigger]
            converts(*convert, value) ==> lexed_models(items@) == lex(value, source@),
{
    let mut lexer = Lexer::new(source);
    let mut items: Vec<Result<Token, LexingError>> = Vec::new();
    loop
        invariant
            conversion_ok(*convert),
            lexer.source() == source@,
            lexer.position() <= source@.len(),
            forall|value: spec_fn(Text) -> u64| #[trigger]
                converts(*convert, value) ==> lexed_models(items@) + lex_from(
                    value,
                    source@,
                    lexer.position(),
                    lexer.line(),
                ) == lex(value, source@),
        decreases source@.len() - lexer.position(),
    {
        let ghost before = lexed_models(items@);
        let ghost position = lexer.position();
        let ghost line = lexer.line();
        match lexer.next(convert) {
            None => {
                assert(before + Seq::<Result<Token<Text>, LexingError>>::empty() =~= before);
                return items;
            },
            Some(item) => {
                proof {
                    assert(lexed_models(items@.push(item)) =~= before.push(lexed_model(item)));
                    assert forall|value: spec_fn(Text) -> u64| #[trigger]
                        converts(*convert, value) implies before.push(lexed_model(item))
                        + lex_from(value, source@, lexer.position(), lexer.line()) == lex(
                        value,
                        source@,
                    ) by {
                        let rest = lex_from(value, source@, lexer.position(), lexer.line());
                        lemma_scan_advances(value, source@, position, line);
                        assert(before + (seq![lexed_model(item)] + rest) =~= before.push(
                            lexed_model(item),
                        ) + rest);
                    }
                }
                items.push(item);
            },
        }
    }
}

/// Lexes a source up to its first error: all its tokens, or that error.
pub fn tokens<C: Fn(String) -> u64>(source: &str, convert: &C) -> (result: Result<
    Vec<Token>,
    LexingError,
>)
    requires
        conversion_ok(*convert),
    ensures
        forall|value: spec_fn(Text) -> u64| #[trigger]
            converts(*convert, value) ==> match result {
                Ok(tokens) => first_error(lex(value, source@)) is None && token_models(tokens@)
                    == tokens_of(lex(value, source@)),
                Err(error) => first_error(lex(value, source@)) == Some(error),
            },
{
    let mut lexer = Lexer::new(source);
    let mut tokens: Vec<Token> = Vec::new();
    loop
        invariant
            conversion_ok(*convert),
            lexer.source() == source@,
            lexer.position() <= source@.len(),
            forall|value: spec_fn(Text) -> u64| #[trigger]
                converts(*convert, value) ==> {
                    let rest = lex_from(value, source@, lexer.position(), lexer.line());
                    &&& first_error(rest) == first_error(lex(value, source@))
                    &&& token_models(tokens@) + tokens_of(rest) == tokens_of(lex(value, source@))
                },
        decreases source@.len() - lexer.position(),
    {
        let ghost before = token_models(tokens@);
        let ghost position = lexer.position();
        let ghost line = lexer.line();
        match lexer.next(convert) {
            None => {
                assert(before + Seq::<Token<Text>>::empty() =~= before);
                return Ok(tokens);
            },
            Some(Err(error)) => {
                proof {
                    assert forall|value: spec_fn(Text) -> u64| #[trigger]
                        converts(*convert, value) implies first_error(lex(value, source@)) == Some(
                        error,
                    ) by {
                        lemma_scan_advances(value, source@, position, line);
                    }
                }
                return Err(error);
            },
            Some(Ok(token)) => {
                proof {
                    assert(token_models(tokens@.push(token)) =~= before.push(token@));
                    assert forall|value: spec_fn(Text) -> u64| #[trigger]
                        converts(*convert, value) implies ({
                        let rest = lex_from(value, source@, lexer.position(), lexer.line());
                        &&& first_error(rest) == first_error(lex(value, source@))
                        &&& before.push(token@) + tokens_of(rest) == tokens_of(lex(value, source@))
                    }) by {
                        let here = lex_from(value, source@, position, line);
                        let rest = lex_from(value, source@, lexer.position(), lexer.line());
                        lemma_scan_advances(value, source@, position, line);
                        assert(here.drop_first() =~= rest);
                        assert(before + (seq![token@] + tokens_of(rest)) =~= before.push(token@)
                            + tokens_of(rest));
                    }
                }
                tokens.push(token);
            },
        }
    }
}

} // verus!
