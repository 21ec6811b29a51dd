use vstd::prelude::*;

use crate::error::{Error, ParseError, ParseErrorKind};
use crate::fixed::parse_spec;
use crate::source_pos::SourcePos;
use crate::text::{digits_value, is_digit, unicode_alphabetic, unicode_whitespace};
use crate::tokens::{keyword_kind, Token, TokenKind};

verus! {

/// Line of the character at index `i`, counted from 1.
pub open spec fn line_at(s: Seq<char>, i: int) -> int
    decreases i,
{
    if i <= 0 {
        1
    } else if s[i - 1] == '\n' {
        line_at(s, i - 1) + 1
    } else {
        line_at(s, i - 1)
    }
}

/// Column of the character at index `i`, counted from 1.
pub open spec fn col_at(s: Seq<char>, i: int) -> int
    decreases i,
{
    if i <= 0 {
        1
    } else if s[i - 1] == '\n' {
        1
    } else {
        col_at(s, i - 1) + 1
    }
}

pub open spec fn pos_at(s: Seq<char>, i: int) -> SourcePos {
    SourcePos(line_at(s, i) as u32, col_at(s, i) as u32)
}

pub open spec fn char_at_is(s: Seq<char>, i: int, c: char) -> bool {
    0 <= i < s.len() && s[i] == c
}

/// The first index at or after `i` that holds neither white space nor part
/// of a comment (`#` up to the end of its line).
pub open spec fn skip_blank(s: Seq<char>, i: int) -> int
    decreases s.len() - i, 0int,
{
    if i < 0 || i >= s.len() {
        i
    } else if s[i] == '#' {
        skip_comment(s, i + 1)
    } else if unicode_whitespace(s[i]) {
        skip_blank(s, i + 1)
    } else {
        i
    }
}

/// As `skip_blank`, from inside a comment.
pub open spec fn skip_comment(s: Seq<char>, i: int) -> int
    decreases s.len() - i, 1int,
{
    if i < 0 || i >= s.len() {
        i
    } else if s[i] == '\n' {
        skip_blank(s, i)
    } else {
        skip_comment(s, i + 1)
    }
}

/// The tokens made of one character.
pub open spec fn single_kind(c: char) -> Option<TokenKind> {
    if c == '@' {
        Some(TokenKind::At)
    } else if c == ',' {
        Some(TokenKind::Comma)
    } else if c == ';' {
        Some(TokenKind::Semicolon)
    } else if c == '{' {
        Some(TokenKind::LeftCurlyParam)
    } else if c == '}' {
        Some(TokenKind::RightCurlyParam)
    } else if c == '[' {
        Some(TokenKind::LeftSquareParam)
    } else if c == ']' {
        Some(TokenKind::RightSquareParam)
    } else if c == '(' {
        Some(TokenKind::LeftParam)
    } else if c == ')' {
        Some(TokenKind::RightParam)
    } else if c == '?' {
        Some(TokenKind::QuestionMark)
    } else if c == '&' {
        Some(TokenKind::And)
    } else if c == '|' {
        Some(TokenKind::Or)
    } else {
        None
    }
}

/// The operators that take a following `=`: the kind alone, and the kind
/// with the `=`.
pub open spec fn operator_kinds(c: char) -> Option<(TokenKind, TokenKind)> {
    if c == '!' {
        Some((TokenKind::Not, TokenKind::NotEqual))
    } else if c == '=' {
        Some((TokenKind::Assignment, TokenKind::Equal))
    } else if c == '+' {
        Some((TokenKind::Plus, TokenKind::PlusAssignment))
    } else if c == '-' {
        Some((TokenKind::Minus, TokenKind::MinusAssignment))
    } else if c == '*' {
        Some((TokenKind::Mul, TokenKind::MulAssignment))
    } else if c == '/' {
        Some((TokenKind::Div, TokenKind::DivAssignment))
    } else if c == '>' {
        Some((TokenKind::GreaterThan, TokenKind::GreaterEqual))
    } else if c == '<' {
        Some((TokenKind::LessThan, TokenKind::LessEqual))
    } else {
        None
    }
}

pub open spec fn is_word_start(c: char) -> bool {
    unicode_alphabetic(c) || c == '_'
}

pub open spec fn is_word_char(c: char) -> bool {
    is_word_start(c) || is_digit(c)
}

/// The characters that may follow a backslash in a string literal.
pub open spec fn is_escape(c: char) -> bool {
    c == '"' || c == 'n' || c == 't' || c == 'r' || c == '\\'
}

/// End of the run of digits that starts at `i`.
pub open spec fn digits_end(s: Seq<char>, i: int) -> int
    decreases s.len() - i,
{
    if 0 <= i < s.len() && is_digit(s[i]) {
        digits_end(s, i + 1)
    } else {
        i
    }
}

/// End of the run of word characters that starts at `i`.
pub open spec fn word_end(s: Seq<char>, i: int) -> int
    decreases s.len() - i,
{
    if 0 <= i < s.len() && is_word_char(s[i]) {
        word_end(s, i + 1)
    } else {
        i
    }
}

/// How the body of a string literal ends.
pub enum StringEnd {
    /// At the closing quote, at this index.
    Closed(int),
    /// At a newline, at this index.
    Newline(int),
    /// At a backslash followed by a character that is no escape, at the
    /// index of that character.
    BadEscape(int),
    /// At the end of the input.
    Unterminated,
}

/// Scans the body of a string literal from index `i`.
pub open spec fn string_end(s: Seq<char>, i: int) -> StringEnd
    decreases s.len() - i,
{
    if i < 0 || i >= s.len() {
        StringEnd::Unterminated
    } else if s[i] == '"' {
        StringEnd::Closed(i)
    } else if s[i] == '\n' {
        StringEnd::Newline(i)
    } else if s[i] == '\\' {
        if i + 1 >= s.len() {
            StringEnd::Unterminated
        } else if is_escape(s[i + 1]) {
            string_end(s, i + 2)
        } else {
            StringEnd::BadEscape(i + 1)
        }
    } else {
        string_end(s, i + 1)
    }
}

/// What one token's text stands for.
pub enum Lexeme {
    /// A token with no text of its own.
    Token(TokenKind),
    /// A string literal with this body.
    Str(Seq<char>),
    /// A name that is no keyword.
    Name(Seq<char>),
    /// An error, caused by the character at this index.
    Fault(ParseErrorKind, int),
}

/// The number literal that starts at `j`, and where it ends.
pub open spec fn scan_number(s: Seq<char>, j: int) -> (Lexeme, int) {
    let k = digits_end(s, j);
    if char_at_is(s, k, '.') && !char_at_is(s, k + 1, '.') {
        let m = digits_end(s, k + 1);
        match parse_spec(s.subrange(j, m)) {
            Ok(r) => (Lexeme::Token(TokenKind::Real(r)), m),
            Err(_) => (Lexeme::Fault(ParseErrorKind::BadRealLiteral, m - 1), m),
        }
    } else {
        let v = digits_value(s.subrange(j, k));
        if v <= i32::MAX {
            (Lexeme::Token(TokenKind::Int(v as i32)), k)
        } else {
            (Lexeme::Fault(ParseErrorKind::LargeInt, k - 1), k)
        }
    }
}

/// The string literal whose opening quote is at `j`, and where it ends.
pub open spec fn scan_string(s: Seq<char>, j: int) -> (Lexeme, int) {
    match string_end(s, j + 1) {
        StringEnd::Closed(e) => (Lexeme::Str(s.subrange(j + 1, e)), e + 1),
        StringEnd::Newline(e) => (Lexeme::Fault(ParseErrorKind::StringEOL, e), e + 1),
        StringEnd::BadEscape(e) => (Lexeme::Fault(ParseErrorKind::UnknownEscape(s[e]), e), e),
        StringEnd::Unterminated => (
            Lexeme::Fault(ParseErrorKind::InfiniteString, s.len() - 1),
            s.len() as int,
        ),
    }
}

/// The word that starts at `j`, and where it ends.
pub open spec fn scan_word(s: Seq<char>, j: int) -> (Lexeme, int) {
    let k = word_end(s, j + 1);
    let t = s.subrange(j, k);
    match keyword_kind(t) {
        Some(kind) => (Lexeme::Token(kind), k),
        None => (Lexeme::Name(t), k),
    }
}

/// The token that starts at index `j`, and where it ends.
pub open spec fn scan_at(s: Seq<char>, j: int) -> (Lexeme, int) {
    let c = s[j];
    if single_kind(c) is Some {
        (Lexeme::Token(single_kind(c)->0), j + 1)
    } else if operator_kinds(c) is Some {
        let (alone, with_equals) = operator_kinds(c)->0;
        if char_at_is(s, j + 1, '=') {
            (Lexeme::Token(with_equals), j + 2)
        } else {
            (Lexeme::Token(alone), j + 1)
        }
    } else if c == '.' {
        if char_at_is(s, j + 1, '.') {
            if char_at_is(s, j + 2, '.') {
                (Lexeme::Token(TokenKind::InclusiveRange), j + 3)
            } else {
                (Lexeme::Token(TokenKind::ExclusiveRange), j + 2)
            }
        } else {
            (Lexeme::Token(TokenKind::Dot), j + 1)
        }
    } else if is_digit(c) {
        scan_number(s, j)
    } else if c == '"' {
        scan_string(s, j)
    } else if is_word_start(c) {
        scan_word(s, j)
    } else {
        (Lexeme::Fault(ParseErrorKind::Illegal(c), j), j + 1)
    }
}

/// The next token from index `i`: what it stands for, the index where it
/// starts, and the index where the scan stops.
pub open spec fn scan_next(s: Seq<char>, i: int) -> (Lexeme, int, int) {
    let j = skip_blank(s, i);
    if j >= s.len() {
        (Lexeme::Token(TokenKind::EndOfFile), j, j)
    } else {
        let (lx, e) = scan_at(s, j);
        (lx, j, e)
    }
}

/// `r` is what the lexer reports for `lx`, a token starting at index `j`.
pub open spec fn reports(r: Result<Token, Error>, s: Seq<char>, lx: Lexeme, j: int) -> bool {
    match lx {
        Lexeme::Token(kind) => r == Ok::<Token, Error>(Token { kind, pos: pos_at(s, j) }),
        Lexeme::Str(t) => r is Ok && r->Ok_0.pos == pos_at(s, j) && r->Ok_0.kind is Str
            && r->Ok_0.kind->Str_0@ == t,
        Lexeme::Name(t) => r is Ok && r->Ok_0.pos == pos_at(s, j) && r->Ok_0.kind is Identity
            && r->Ok_0.kind->Identity_0@ == t,
        Lexeme::Fault(kind, e) => r == Err::<Token, Error>(
            Error::ParseError(ParseError { kind, pos: pos_at(s, e) }),
        ),
    }
}


proof fn lemma_pos_bounds(s: Seq<char>, i: int)
    requires
        0 <= i <= s.len(),
    ensures
        1 <= line_at(s, i) <= i + 1,
        1 <= col_at(s, i) <= i + 1,
    decreases i,
{
    if i > 0 {
        lemma_pos_bounds(s, i - 1);
    }
}

/// The lexical scanner: it reads the input once, one token per call.
#[derive(Debug)]
pub struct Lexer {
    input: Vec<char>,
    /// Index of the next character to read.
    cursor: usize,
    /// Line of the next character.
    line: u32,
    /// Column of the next character.
    column: u32,
    /// Column where the last token began.
    start: u32,
}

impl Lexer {
    /// The characters being scanned.
    pub closed spec fn text(&self) -> Seq<char> {
        self.input@
    }

    /// Index of the next character to read.
    pub closed spec fn offset(&self) -> int {
        self.cursor as int
    }

    /// Column where the last token began.
    pub closed spec fn token_col(&self) -> int {
        self.start as int
    }

    pub closed spec fn wf(&self) -> bool {
        &&& self.cursor <= self.input.len()
        &&& self.input.len() < u32::MAX
        &&& self.line == line_at(self.input@, self.cursor as int)
        &&& self.column == col_at(self.input@, self.cursor as int)
    }

    /// Makes a lexer over `input`.
    pub fn new(input: &str) -> (r: Lexer)
        requires
            input@.len() < u32::MAX,
        ensures
            r.wf(),
            r.text() == input@,
            r.offset() == 0,
            r.offset() <= r.text().len(),
            r.token_col() == 1,
    {
        Lexer { input: crate::text::chars_of(input), cursor: 0, line: 1, column: 1, start: 1 }
    }

    /// The character `k` places after the cursor, if there is one.
    fn peek_at(&self, k: usize) -> (r: Option<char>)
        requires
            self.wf(),
            k <= 2,
        ensures
            r == (if self.cursor + k < self.input.len() {
                Some(self.input@[self.cursor + k])
            } else {
                None::<char>
            }),
    {
        if k < self.input.len() - self.cursor {
            Some(self.input[self.cursor + k])
        } else {
            None
        }
    }

    fn peek_char(&self) -> (r: Option<char>)
        requires
            self.wf(),
        ensures
            r == (if self.cursor < self.input.len() {
                Some(self.input@[self.cursor as int])
            } else {
                None::<char>
            }),
    {
        self.peek_at(0)
    }

    fn peek_char_eq(&self, c: char) -> (r: bool)
        requires
            self.wf(),
        ensures
            r == char_at_is(self.input@, self.cursor as int, c),
    {
        match self.peek_char() {
            Some(p) => p == c,
            None => false,
        }
    }

    /// Moves past the next character.
    fn skip(&mut self)
        requires
            old(self).wf(),
            old(self).cursor < old(self).input.len(),
        ensures
            final(self).wf(),
            final(self).input@ == old(self).input@,
            final(self).start == old(self).start,
            final(self).cursor == old(self).cursor + 1,
    {
        proof {
            lemma_pos_bounds(self.input@, self.cursor as int);
        }
        if self.input[self.cursor] == '\n' {
            self.line = self.line + 1;
            self.column = 1;
        } else {
            self.column = self.column + 1;
        }
        self.cursor = self.cursor + 1;
    }

    /// The position of the next character.
    fn here(&self) -> (r: SourcePos)
        requires
            self.wf(),
        ensures
            r == pos_at(self.input@, self.cursor as int),
    {
        SourcePos::new(self.line, self.column)
    }

    /// The position of the character just read, which is no newline.
    fn last_pos(&self) -> (r: SourcePos)
        requires
            self.wf(),
            0 < self.cursor,
            self.input@[self.cursor - 1] != '\n',
        ensures
            r == pos_at(self.input@, self.cursor - 1),
    {
        proof {
            lemma_pos_bounds(self.input@, self.cursor - 1);
        }
        SourcePos::new(self.line, self.column - 1)
    }

    fn fail(kind: ParseErrorKind, pos: SourcePos) -> (r: Error)
        ensures
            r == Error::ParseError(ParseError { kind, pos }),
    {
        Error::ParseError(ParseError::new(kind, pos))
    }

    /// Skips the rest of a comment, up to its newline or the end.
    fn skip_line(&mut self)
        requires
            old(self).wf(),
        ensures
            final(self).wf(),
            final(self).input@ == old(self).input@,
            final(self).start == old(self).start,
            old(self).cursor <= final(self).cursor,
            forall|m: int|
                old(self).cursor <= m < final(self).cursor ==> final(self).input@[m] != '\n',
            char_at_is(final(self).input@, final(self).cursor as int, '\n') || final(self).cursor
                == final(self).input.len(),
            skip_blank(final(self).input@, final(self).cursor as int) == skip_comment(
                old(self).input@,
                old(self).cursor as int,
            ),
    {
        let ghost s = self.input@;
        let ghost target = skip_comment(s, self.cursor as int);
        while self.cursor < self.input.len() && self.input[self.cursor] != '\n'
            invariant
                self.wf(),
                self.input@ == s,
                self.start == old(self).start,
                old(self).cursor <= self.cursor,
                forall|m: int| old(self).cursor <= m < self.cursor ==> s[m] != '\n',
                skip_comment(s, self.cursor as int) == target,
            decreases self.input.len() - self.cursor,
        {
            self.skip();
        }
    }

    /// Skips white space and comments.
    fn skip_whitespace(&mut self)
        requires
            old(self).wf(),
        ensures
            final(self).wf(),
            final(self).input@ == old(self).input@,
            final(self).start == old(self).start,
            old(self).cursor <= final(self).cursor,
            final(self).cursor == skip_blank(old(self).input@, old(self).cursor as int),
    {
        let ghost s = self.input@;
        let ghost target = skip_blank(s, self.cursor as int);
        loop
            invariant
                self.wf(),
                self.input@ == s,
                self.start == old(self).start,
                old(self).cursor <= self.cursor,
                s == old(self).input@,
                target == skip_blank(s, old(self).cursor as int),
                skip_blank(s, self.cursor as int) == target,
            ensures
                self.cursor == target,
            decreases self.input.len() - self.cursor,
        {
            match self.peek_char() {
                None => {
                    assert(skip_blank(s, self.cursor as int) == self.cursor);
                    break;
                },
                Some(c) => {
                    if c == '#' {
                        self.skip();
                        self.skip_line();
                    } else if c.is_whitespace() {
                        self.skip();
                    } else {
                        assert(skip_blank(s, self.cursor as int) == self.cursor);
                        break;
                    }
                },
            }
        }
    }
}


/// `r` is what the lexer reads for `lx`, before the token's position is added.
pub open spec fn kind_reports(r: Result<TokenKind, Error>, s: Seq<char>, lx: Lexeme) -> bool {
    match lx {
        Lexeme::Token(kind) => r == Ok::<TokenKind, Error>(kind),
        Lexeme::Str(t) => r is Ok && r->Ok_0 is Str && r->Ok_0->Str_0@ == t,
        Lexeme::Name(t) => r is Ok && r->Ok_0 is Identity && r->Ok_0->Identity_0@ == t,
        Lexeme::Fault(kind, e) => r == Err::<TokenKind, Error>(
            Error::ParseError(ParseError { kind, pos: pos_at(s, e) }),
        ),
    }
}

proof fn lemma_digits_end(s: Seq<char>, i: int)
    requires
        0 <= i <= s.len(),
    ensures
        i <= digits_end(s, i) <= s.len(),
        forall|p: int| i <= p < digits_end(s, i) ==> is_digit(#[trigger] s[p]),
    decreases s.len() - i,
{
    if i < s.len() && is_digit(s[i]) {
        lemma_digits_end(s, i + 1);
    }
}

proof fn lemma_word_end(s: Seq<char>, i: int)
    requires
        0 <= i <= s.len(),
    ensures
        i <= word_end(s, i) <= s.len(),
    decreases s.len() - i,
{
    if i < s.len() && is_word_char(s[i]) {
        lemma_word_end(s, i + 1);
    }
}

fn single_token(c: char) -> (r: Option<TokenKind>)
    ensures
        r == single_kind(c),
{
    if c == '@' {
        Some(TokenKind::At)
    } else if c == ',' {
        Some(TokenKind::Comma)
    } else if c == ';' {
        Some(TokenKind::Semicolon)
    } else if c == '{' {
        Some(TokenKind::LeftCurlyParam)
    } else if c == '}' {
        Some(TokenKind::RightCurlyParam)
    } else if c == '[' {
        Some(TokenKind::LeftSquareParam)
    } else if c == ']' {
        Some(TokenKind::RightSquareParam)
    } else if c == '(' {
        Some(TokenKind::LeftParam)
    } else if c == ')' {
        Some(TokenKind::RightParam)
    } else if c == '?' {
        Some(TokenKind::QuestionMark)
    } else if c == '&' {
        Some(TokenKind::And)
    } else if c == '|' {
        Some(TokenKind::Or)
    } else {
        None
    }
}

fn operator_tokens(c: char) -> (r: Option<(TokenKind, TokenKind)>)
    ensures
        r == operator_kinds(c),
{
    if c == '!' {
        Some((TokenKind::Not, TokenKind::NotEqual))
    } else if c == '=' {
        Some((TokenKind::Assignment, TokenKind::Equal))
    } else if c == '+' {
        Some((TokenKind::Plus, TokenKind::PlusAssignment))
    } else if c == '-' {
        Some((TokenKind::Minus, TokenKind::MinusAssignment))
    } else if c == '*' {
        Some((TokenKind::Mul, TokenKind::MulAssignment))
    } else if c == '/' {
        Some((TokenKind::Div, TokenKind::DivAssignment))
    } else if c == '>' {
        Some((TokenKind::GreaterThan, TokenKind::GreaterEqual))
    } else if c == '<' {
        Some((TokenKind::LessThan, TokenKind::LessEqual))
    } else {
        None
    }
}

fn is_numeric(c: char) -> (r: bool)
    ensures
        r == is_digit(c),
{
    '0' <= c && c <= '9'
}

fn is_letter(c: char) -> (r: bool)
    ensures
        r == is_word_start(c),
{
    c.is_alphabetic() || c == '_'
}

fn is_alphanumeric(c: char) -> (r: bool)
    ensures
        r == is_word_char(c),
{
    is_letter(c) || is_numeric(c)
}

fn is_escape_char(c: char) -> (r: bool)
    ensures
        r == is_escape(c),
{
    c == '"' || c == 'n' || c == 't' || c == 'r' || c == '\\'
}

impl Lexer {
    /// Moves past a run of digits.
    fn skip_digits(&mut self)
        requires
            old(self).wf(),
        ensures
            final(self).wf(),
            final(self).input@ == old(self).input@,
            final(self).start == old(self).start,
            final(self).cursor == digits_end(old(self).input@, old(self).cursor as int),
    {
        let ghost s = self.input@;
        while self.cursor < self.input.len() && is_numeric(self.input[self.cursor])
            invariant
                self.wf(),
                self.input@ == s,
                self.start == old(self).start,
                old(self).cursor <= self.cursor,
                digits_end(s, self.cursor as int) == digits_end(s, old(self).cursor as int),
            decreases self.input.len() - self.cursor,
        {
            self.skip();
        }
    }

    /// Reads a number literal whose first digit was just read.
    #[verifier::loop_isolation(false)]
    fn read_number(&mut self) -> (r: Result<TokenKind, Error>)
        requires
            old(self).wf(),
            0 < old(self).cursor,
            is_digit(old(self).input@[old(self).cursor - 1]),
        ensures
            final(self).wf(),
            final(self).input@ == old(self).input@,
            final(self).start == old(self).start,
            final(self).cursor == scan_number(old(self).input@, old(self).cursor - 1).1,
            kind_reports(r, old(self).input@, scan_number(old(self).input@, old(self).cursor - 1).0),
    {
        let ghost s = self.input@;
        let j = self.cursor - 1;
        assert(s.subrange(j as int, j as int) =~= seq![]);
        assert(s.subrange(j as int, j + 1).drop_last() =~= s.subrange(j as int, j as int));
        let mut v: u64 = (self.input[j] as u64) - ('0' as u64);
        assert(digits_value(s.subrange(j as int, j as int)) == 0);
        assert(digits_value(s.subrange(j as int, j + 1)) == v);
        while self.cursor < self.input.len() && is_numeric(self.input[self.cursor])
            invariant
                self.wf(),
                self.input@ == s,
                self.start == old(self).start,
                j < self.cursor,
                digits_end(s, self.cursor as int) == digits_end(s, j as int),
                v <= 21474836479,
                digits_value(s.subrange(j as int, self.cursor as int)) <= i32::MAX ==> v
                    == digits_value(s.subrange(j as int, self.cursor as int)),
                digits_value(s.subrange(j as int, self.cursor as int)) > i32::MAX ==> v
                    > i32::MAX,
            decreases self.input.len() - self.cursor,
        {
            let ghost prev = s.subrange(j as int, self.cursor as int);
            let d = (self.input[self.cursor] as u64) - ('0' as u64);
            if v <= 2147483647 {
                v = v * 10 + d;
            }
            self.skip();
            assert(s.subrange(j as int, self.cursor as int).drop_last() =~= prev);
            proof {
                if digits_value(prev) > i32::MAX {
                    assert(digits_value(s.subrange(j as int, self.cursor as int)) > i32::MAX);
                }
            }
        }
        let k = self.cursor;
        proof {
            lemma_digits_end(s, j as int);
            assert(is_digit(s[k - 1]));
        }
        if self.peek_char_eq('.') && self.peek_at(1) != Some('.') {
            self.skip();
            proof {
                lemma_digits_end(s, k + 1);
            }
            self.skip_digits();
            match crate::fixed::parse_chars(&self.input, j, self.cursor) {
                Ok(r) => Ok(TokenKind::Real(r)),
                Err(_) => Err(Lexer::fail(ParseErrorKind::BadRealLiteral, self.last_pos())),
            }
        } else if v > 2147483647 {
            Err(Lexer::fail(ParseErrorKind::LargeInt, self.last_pos()))
        } else {
            Ok(TokenKind::Int(v as i32))
        }
    }
}


impl Lexer {
    /// Reads a string literal whose opening quote was just read.
    fn read_string(&mut self) -> (r: Result<TokenKind, Error>)
        requires
            old(self).wf(),
            0 < old(self).cursor,
            old(self).input@[old(self).cursor - 1] == '"',
        ensures
            final(self).wf(),
            final(self).input@ == old(self).input@,
            final(self).start == old(self).start,
            final(self).cursor == scan_string(old(self).input@, old(self).cursor - 1).1,
            kind_reports(r, old(self).input@, scan_string(old(self).input@, old(self).cursor - 1).0),
    {
        let ghost s = self.input@;
        let body = self.cursor;
        loop
            invariant
                self.wf(),
                self.input@ == s,
                s == old(self).input@,
                self.start == old(self).start,
                body == old(self).cursor,
                0 < body <= self.cursor,
                s[body - 1] == '"',
                string_end(s, self.cursor as int) == string_end(s, body as int),
                forall|m: int| body - 1 <= m < self.cursor ==> s[m] != '\n',
            decreases self.input.len() - self.cursor,
        {
            match self.peek_char() {
                None => {
                    return Err(Lexer::fail(ParseErrorKind::InfiniteString, self.last_pos()));
                },
                Some(c) => {
                    if c == '"' {
                        let text = crate::text::string_of(&self.input, body, self.cursor);
                        self.skip();
                        return Ok(TokenKind::Str(text));
                    } else if c == '\n' {
                        let pos = self.here();
                        self.skip();
                        return Err(Lexer::fail(ParseErrorKind::StringEOL, pos));
                    } else if c == '\\' {
                        self.skip();
                        match self.peek_char() {
                            None => {
                                return Err(
                                    Lexer::fail(ParseErrorKind::InfiniteString, self.last_pos()),
                                );
                            },
                            Some(p) => {
                                if !is_escape_char(p) {
                                    return Err(
                                        Lexer::fail(ParseErrorKind::UnknownEscape(p), self.here()),
                                    );
                                }
                                self.skip();
                            },
                        }
                    } else {
                        self.skip();
                    }
                },
            }
        }
    }

    /// Reads a name or keyword whose first character was just read.
    fn read_identifier(&mut self) -> (r: Result<TokenKind, Error>)
        requires
            old(self).wf(),
            0 < old(self).cursor,
        ensures
            final(self).wf(),
            final(self).input@ == old(self).input@,
            final(self).start == old(self).start,
            final(self).cursor == scan_word(old(self).input@, old(self).cursor - 1).1,
            kind_reports(r, old(self).input@, scan_word(old(self).input@, old(self).cursor - 1).0),
    {
        let ghost s = self.input@;
        let begin = self.cursor - 1;
        while self.cursor < self.input.len() && is_alphanumeric(self.input[self.cursor])
            invariant
                self.wf(),
                self.input@ == s,
                self.start == old(self).start,
                old(self).cursor <= self.cursor,
                word_end(s, self.cursor as int) == word_end(s, old(self).cursor as int),
            decreases self.input.len() - self.cursor,
        {
            self.skip();
        }
        let text = crate::text::string_of(&self.input, begin, self.cursor);
        Ok(crate::tokens::lookup_identity(text))
    }

    /// Reads one token, after white space and comments have been skipped.
    fn read_token(&mut self) -> (r: Result<TokenKind, Error>)
        requires
            old(self).wf(),
        ensures
            final(self).wf(),
            final(self).input@ == old(self).input@,
            final(self).start == old(self).start,
            old(self).cursor >= old(self).input.len() ==> r == Ok::<TokenKind, Error>(
                TokenKind::EndOfFile,
            ) && final(self).cursor == old(self).cursor,
            old(self).cursor < old(self).input.len() ==> final(self).cursor == scan_at(
                old(self).input@,
                old(self).cursor as int,
            ).1 && kind_reports(r, old(self).input@, scan_at(old(self).input@, old(self).cursor as int).0),
    {
        let pos = self.here();
        let c = match self.peek_char() {
            None => {
                return Ok(TokenKind::EndOfFile);
            },
            Some(c) => c,
        };
        self.skip();
        if let Some(kind) = single_token(c) {
            return Ok(kind);
        }
        if let Some((alone, with_equals)) = operator_tokens(c) {
            if self.peek_char_eq('=') {
                self.skip();
                return Ok(with_equals);
            } else {
                return Ok(alone);
            }
        }
        if c == '.' {
            if self.peek_char_eq('.') {
                self.skip();
                if self.peek_char_eq('.') {
                    self.skip();
                    Ok(TokenKind::InclusiveRange)
                } else {
                    Ok(TokenKind::ExclusiveRange)
                }
            } else {
                Ok(TokenKind::Dot)
            }
        } else if is_numeric(c) {
            self.read_number()
        } else if c == '"' {
            self.read_string()
        } else if is_letter(c) {
            self.read_identifier()
        } else {
            Err(Lexer::fail(ParseErrorKind::Illegal(c), pos))
        }
    }
}


proof fn lemma_scan_at_advances(s: Seq<char>, j: int)
    requires
        0 <= j < s.len(),
    ensures
        j < scan_at(s, j).1,
{
    let c = s[j];
    if single_kind(c) is None && operator_kinds(c) is None && c != '.' {
        if is_digit(c) {
            lemma_digits_end(s, j);
            lemma_digits_end(s, j + 1);
            let k = digits_end(s, j);
            if k < s.len() {
                lemma_digits_end(s, k + 1);
            }
        } else if c == '"' {
            lemma_string_end_after(s, j + 1);
        } else if is_word_start(c) {
            lemma_word_end(s, j + 1);
        }
    }
}

proof fn lemma_string_end_after(s: Seq<char>, i: int)
    requires
        0 <= i,
    ensures
        match string_end(s, i) {
            StringEnd::Closed(e) => i <= e,
            StringEnd::Newline(e) => i <= e,
            StringEnd::BadEscape(e) => i < e,
            StringEnd::Unterminated => true,
        },
    decreases s.len() - i,
{
    if 0 <= i < s.len() && s[i] != '"' && s[i] != '\n' {
        if s[i] == '\\' {
            if i + 1 < s.len() && is_escape(s[i + 1]) {
                lemma_string_end_after(s, i + 2);
            }
        } else {
            lemma_string_end_after(s, i + 1);
        }
    }
}

impl Lexer {
    /// Skips white space and comments, then reads the next token. At the end
    /// of the input it reports `EndOfFile`, as often as it is called. After an
    /// error the cursor has moved on, so scanning can go on: past the
    /// offending text, except after an unknown escape, where the backslash is
    /// read and the character after it starts the next token.
    pub fn next_token(&mut self) -> (r: Result<Token, Error>)
        requires
            old(self).wf(),
        ensures
            final(self).wf(),
            final(self).text() == old(self).text(),
            final(self).offset() <= final(self).text().len(),
            ({
                let (lx, j, e) = scan_next(old(self).text(), old(self).offset());
                &&& final(self).offset() == e
                &&& final(self).token_col() == col_at(old(self).text(), j)
                &&& reports(r, old(self).text(), lx, j)
            }),
            old(self).offset() < final(self).offset() || (r is Ok && r->Ok_0.kind is EndOfFile),
    {
        self.skip_whitespace();
        self.start = self.column;
        let pos = self.here();
        proof {
            if self.cursor < self.input.len() {
                lemma_scan_at_advances(self.input@, self.cursor as int);
            }
        }
        match self.read_token() {
            Ok(kind) => Ok(Token::new(kind, pos)),
            Err(e) => Err(e),
        }
    }

    /// The line of the next character to read.
    pub fn line(&self) -> (r: u32)
        requires
            self.wf(),
        ensures
            r == line_at(self.text(), self.offset()),
    {
        self.line
    }

    /// The column where the last token began.
    pub fn pos(&self) -> (r: u32)
        ensures
            r == self.token_col(),
    {
        self.start
    }

    /// The next token, error included, or `None` once the input is
    /// exhausted: the lexer read as a sequence.
    pub fn next_item(&mut self) -> (r: Option<Result<Token, Error>>)
        requires
            old(self).wf(),
        ensures
            final(self).wf(),
            final(self).text() == old(self).text(),
            final(self).offset() <= final(self).text().len(),
            ({
                let (lx, j, e) = scan_next(old(self).text(), old(self).offset());
                &&& final(self).offset() == e
                &&& final(self).token_col() == col_at(old(self).text(), j)
                &&& if lx == Lexeme::Token(TokenKind::EndOfFile) {
                    r is None
                } else {
                    r is Some && reports(r->0, old(self).text(), lx, j)
                }
            }),
    {
        let token = self.next_token();
        if let Ok(t) = &token {
            if t.is_eof() {
                return None;
            }
        }
        Some(token)
    }
}


/// The character at `p` belongs to a comment that begins at or after `i`:
/// a `#` stands at or before it, with no newline in between.
pub open spec fn in_comment(s: Seq<char>, i: int, p: int) -> bool {
    exists|k: int|
        i <= k <= p && #[trigger] s[k] == '#' && forall|m: int| k < m <= p ==> s[m] != '\n'
}

/// No newline stands in `s[i..=p]`.
pub open spec fn no_newline(s: Seq<char>, i: int, p: int) -> bool {
    forall|m: int| i <= m <= p ==> s[m] != '\n'
}

/// Every character of `s` is white space or part of a comment.
pub open spec fn only_blanks(s: Seq<char>) -> bool {
    forall|p: int| 0 <= p < s.len() ==> unicode_whitespace(#[trigger] s[p]) || in_comment(s, 0, p)
}

proof fn lemma_skip_blank_to_end(s: Seq<char>, i: int)
    requires
        0 <= i <= s.len(),
        forall|p: int|
            i <= p < s.len() ==> unicode_whitespace(#[trigger] s[p]) || in_comment(s, i, p),
    ensures
        skip_blank(s, i) == s.len(),
    decreases s.len() - i, 0int,
{
    if i < s.len() {
        if s[i] == '#' {
            assert forall|p: int| i + 1 <= p < s.len() implies unicode_whitespace(#[trigger] s[p])
                || in_comment(s, i + 1, p) || no_newline(s, i + 1, p) by {
                if !unicode_whitespace(s[p]) {
                    let k = choose|k: int|
                        i <= k <= p && #[trigger] s[k] == '#' && forall|m: int|
                            k < m <= p ==> s[m] != '\n';
                    if k > i {
                        assert(in_comment(s, i + 1, p));
                    }
                }
            }
            lemma_skip_comment_to_end(s, i + 1);
        } else {
            assert(unicode_whitespace(s[i]));
            assert forall|p: int| i + 1 <= p < s.len() implies unicode_whitespace(#[trigger] s[p])
                || in_comment(s, i + 1, p) by {
                if !unicode_whitespace(s[p]) {
                    let k = choose|k: int|
                        i <= k <= p && #[trigger] s[k] == '#' && forall|m: int|
                            k < m <= p ==> s[m] != '\n';
                    assert(k != i);
                    assert(in_comment(s, i + 1, p));
                }
            }
            lemma_skip_blank_to_end(s, i + 1);
        }
    }
}

proof fn lemma_skip_comment_to_end(s: Seq<char>, i: int)
    requires
        0 <= i <= s.len(),
        forall|p: int|
            i <= p < s.len() ==> unicode_whitespace(#[trigger] s[p]) || in_comment(s, i, p)
                || no_newline(s, i, p),
    ensures
        skip_comment(s, i) == s.len(),
    decreases s.len() - i, 1int,
{
    if i < s.len() {
        if s[i] == '\n' {
            assert forall|p: int| i <= p < s.len() implies unicode_whitespace(#[trigger] s[p])
                || in_comment(s, i, p) by {
                assert(!no_newline(s, i, p));
            }
            lemma_skip_blank_to_end(s, i);
        } else {
            assert forall|p: int| i + 1 <= p < s.len() implies unicode_whitespace(#[trigger] s[p])
                || in_comment(s, i + 1, p) || no_newline(s, i + 1, p) by {
                if !unicode_whitespace(s[p]) && !no_newline(s, i, p) {
                    let k = choose|k: int|
                        i <= k <= p && #[trigger] s[k] == '#' && forall|m: int|
                            k < m <= p ==> s[m] != '\n';
                    if k > i {
                        assert(in_comment(s, i + 1, p));
                    }
                }
            }
            lemma_skip_comment_to_end(s, i + 1);
        }
    }
}

/// On text made only of white space and comments the first token is the end
/// of file, with no error before it, and reading again gives the end of file
/// again.
pub proof fn lemma_blank_input_is_eof(s: Seq<char>)
    requires
        only_blanks(s),
    ensures
        scan_next(s, 0) == (Lexeme::Token(TokenKind::EndOfFile), s.len() as int, s.len() as int),
        scan_next(s, s.len() as int) == (
            Lexeme::Token(TokenKind::EndOfFile),
            s.len() as int,
            s.len() as int,
        ),
{
    lemma_skip_blank_to_end(s, 0);
}

proof fn lemma_skip_blank_bounds(s: Seq<char>, i: int)
    requires
        0 <= i <= s.len(),
    ensures
        i <= skip_blank(s, i) <= s.len(),
    decreases s.len() - i, 0int,
{
    if i < s.len() {
        if s[i] == '#' {
            lemma_skip_comment_bounds(s, i + 1);
        } else if unicode_whitespace(s[i]) {
            lemma_skip_blank_bounds(s, i + 1);
        }
    }
}

proof fn lemma_skip_comment_bounds(s: Seq<char>, i: int)
    requires
        0 <= i <= s.len(),
    ensures
        i <= skip_comment(s, i) <= s.len(),
    decreases s.len() - i, 1int,
{
    if i < s.len() {
        if s[i] == '\n' {
            lemma_skip_blank_bounds(s, i);
        } else {
            lemma_skip_comment_bounds(s, i + 1);
        }
    }
}

/// Only the end of the input reads as the end of file.
proof fn lemma_scan_at_is_no_end(s: Seq<char>, j: int)
    requires
        0 <= j < s.len(),
    ensures
        scan_at(s, j).0 != Lexeme::Token(TokenKind::EndOfFile),
{
    let c = s[j];
    if single_kind(c) is None && operator_kinds(c) is None && c != '.' && !is_digit(c) && c
        != '"' && is_word_start(c) {
        let t = s.subrange(j, word_end(s, j + 1));
        assert(keyword_kind(t) != Some(TokenKind::EndOfFile));
    }
}

/// Once the end of file has been read, reading again gives it again, at the
/// same place.
pub proof fn lemma_end_of_file_repeats(s: Seq<char>, i: int)
    requires
        0 <= i <= s.len(),
        scan_next(s, i).0 == Lexeme::Token(TokenKind::EndOfFile),
    ensures
        scan_next(s, i).2 == s.len(),
        scan_next(s, scan_next(s, i).2) == scan_next(s, i),
{
    lemma_skip_blank_bounds(s, i);
    if skip_blank(s, i) < s.len() {
        lemma_scan_at_is_no_end(s, skip_blank(s, i));
    }
}

} // verus!
