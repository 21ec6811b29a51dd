use vstd::prelude::*;

use crate::fixed::Real;
use crate::source_pos::SourcePos;
use crate::text::chars_of;

verus! {

/// A token and the position where its text begins.
#[derive(Debug, Clone, PartialEq)]
pub struct Token {
    pub kind: TokenKind,
    pub pos: SourcePos,
}

/// The kinds of token the lexer produces.
#[derive(Debug, Clone, PartialEq)]
pub enum TokenKind {
    // Literals
    Int(i32),
    Real(Real),
    Str(String),
    Nil,
    // Identifier
    Identity(String),
    // Assignment
    Assignment,
    PlusAssignment,
    MinusAssignment,
    MulAssignment,
    DivAssignment,
    // Arithmetic
    Plus,
    Minus,
    Mul,
    Div,
    // Comparison
    Equal,
    NotEqual,
    GreaterThan,
    LessThan,
    GreaterEqual,
    LessEqual,
    // Logic
    And,
    Or,
    Not,
    // Brackets
    LeftParam,
    RightParam,
    LeftCurlyParam,
    RightCurlyParam,
    LeftSquareParam,
    RightSquareParam,
    // Keywords
    At,
    By,
    Function,
    True,
    False,
    If,
    Else,
    While,
    For,
    Break,
    Return,
    QuestionMark,
    // Punctuation
    Semicolon,
    Comma,
    Dot,
    // Ranges
    ExclusiveRange,
    InclusiveRange,
    EndOfFile,
}

impl Token {
    pub fn new(kind: TokenKind, pos: SourcePos) -> (r: Token)
        ensures
            r.kind == kind,
            r.pos == pos,
    {
        Token { kind, pos }
    }

    pub fn line(&self) -> (r: u32)
        ensures
            r == self.pos.0,
    {
        self.pos.line()
    }

    pub fn col(&self) -> (r: u32)
        ensures
            r == self.pos.1,
    {
        self.pos.col()
    }

    /// Is this a keyword token?
    pub fn is_keyword(&self) -> (r: bool)
        ensures
            r == (self.kind is At || self.kind is Function || self.kind is True
                || self.kind is False || self.kind is If || self.kind is Else
                || self.kind is While || self.kind is For || self.kind is Break
                || self.kind is Return || self.kind is QuestionMark),
    {
        match self.kind {
            TokenKind::At
            | TokenKind::Function
            | TokenKind::True
            | TokenKind::False
            | TokenKind::If
            | TokenKind::Else
            | TokenKind::While
            | TokenKind::For
            | TokenKind::Break
            | TokenKind::Return
            | TokenKind::QuestionMark => true,
            _ => false,
        }
    }

    /// Is this an assignment token?
    pub fn is_assignment(&self) -> (r: bool)
        ensures
            r == (self.kind is Assignment || self.kind is PlusAssignment
                || self.kind is MinusAssignment || self.kind is MulAssignment
                || self.kind is DivAssignment),
    {
        match self.kind {
            TokenKind::Assignment
            | TokenKind::PlusAssignment
            | TokenKind::MinusAssignment
            | TokenKind::MulAssignment
            | TokenKind::DivAssignment => true,
            _ => false,
        }
    }

    /// Is this an arithmetic operator?
    pub fn is_arithmetic(&self) -> (r: bool)
        ensures
            r == (self.kind is Plus || self.kind is Minus || self.kind is Mul
                || self.kind is Div),
    {
        match self.kind {
            TokenKind::Plus | TokenKind::Minus | TokenKind::Mul | TokenKind::Div => true,
            _ => false,
        }
    }

    /// Is this a literal token?
    pub fn is_literal(&self) -> (r: bool)
        ensures
            r == (self.kind is Int || self.kind is Real || self.kind is Str || self.kind is Nil
                || self.kind is True || self.kind is False),
    {
        match self.kind {
            TokenKind::Int(_)
            | TokenKind::Real(_)
            | TokenKind::Str(_)
            | TokenKind::Nil
            | TokenKind::True
            | TokenKind::False => true,
            _ => false,
        }
    }

    /// Is this a name token?
    pub fn is_identity(&self) -> (r: bool)
        ensures
            r == self.kind is Identity,
    {
        match self.kind {
            TokenKind::Identity(_) => true,
            _ => false,
        }
    }

    /// Is this the end of file token?
    pub fn is_eof(&self) -> (r: bool)
        ensures
            r == self.kind is EndOfFile,
    {
        match self.kind {
            TokenKind::EndOfFile => true,
            _ => false,
        }
    }
}

/// The token kind of a reserved word, or `None` for any other text.
pub open spec fn keyword_kind(s: Seq<char>) -> Option<TokenKind> {
    if s == seq!['f', 'n'] {
        Some(TokenKind::Function)
    } else if s == seq!['t', 'r', 'u', 'e'] {
        Some(TokenKind::True)
    } else if s == seq!['f', 'a', 'l', 's', 'e'] {
        Some(TokenKind::False)
    } else if s == seq!['i', 'f'] {
        Some(TokenKind::If)
    } else if s == seq!['e', 'l', 's', 'e'] {
        Some(TokenKind::Else)
    } else if s == seq!['w', 'h', 'i', 'l', 'e'] {
        Some(TokenKind::While)
    } else if s == seq!['f', 'o', 'r'] {
        Some(TokenKind::For)
    } else if s == seq!['b', 'r', 'e', 'a', 'k'] {
        Some(TokenKind::Break)
    } else if s == seq!['r', 'e', 't', 'u', 'r', 'n'] {
        Some(TokenKind::Return)
    } else if s == seq!['n', 'i', 'l'] {
        Some(TokenKind::Nil)
    } else {
        None
    }
}

/// The token that the word `id` stands for: its keyword, or a name.
pub open spec fn word_token(id: String) -> TokenKind {
    match keyword_kind(id@) {
        Some(k) => k,
        None => TokenKind::Identity(id),
    }
}

fn same_chars(a: &Vec<char>, b: &[char]) -> (r: bool)
    ensures
        r == (a@ == b@),
{
    if a.len() != b.len() {
        return false;
    }
    let mut i: usize = 0;
    while i < a.len()
        invariant
            a.len() == b@.len(),
            i <= a.len(),
            forall|j: int| 0 <= j < i ==> a@[j] == b@[j],
        decreases a.len() - i,
    {
        if a[i] != b[i] {
            return false;
        }
        i = i + 1;
    }
    assert(a@ =~= b@);
    true
}

/// Classifies the word `id` as a keyword token or a name token.
pub fn lookup_identity(id: String) -> (r: TokenKind)
    ensures
        r == word_token(id),
{
    let c = chars_of(id.as_str());
    if same_chars(&c, &['f', 'n']) {
        TokenKind::Function
    } else if same_chars(&c, &['t', 'r', 'u', 'e']) {
        TokenKind::True
    } else if same_chars(&c, &['f', 'a', 'l', 's', 'e']) {
        TokenKind::False
    } else if same_chars(&c, &['i', 'f']) {
        TokenKind::If
    } else if same_chars(&c, &['e', 'l', 's', 'e']) {
        TokenKind::Else
    } else if same_chars(&c, &['w', 'h', 'i', 'l', 'e']) {
        TokenKind::While
    } else if same_chars(&c, &['f', 'o', 'r']) {
        TokenKind::For
    } else if same_chars(&c, &['b', 'r', 'e', 'a', 'k']) {
        TokenKind::Break
    } else if same_chars(&c, &['r', 'e', 't', 'u', 'r', 'n']) {
        TokenKind::Return
    } else if same_chars(&c, &['n', 'i', 'l']) {
        TokenKind::Nil
    } else {
        TokenKind::Identity(id)
    }
}

} // verus!
