//! The surface syntax of regular expressions: from source text to tokens,
//! and from tokens to a postfix program.

use vstd::prelude::*;
use crate::text::{is_whitespace, is_whitespace_char, push_text};

pub mod lit;
pub mod postfix;
pub mod roundtrip;
pub mod token;

pub use lit::Lit;
pub use postfix::Postfix;
pub use token::Token;

verus! {

/// Why a source text is no regular expression.
#[derive(Debug, Clone, PartialEq, Eq)]
pub enum ParseError {
    /// The parenthesis is not closed.
    Unmatched(&'static str),
    /// After the expression the token is left over.
    ParsingStopped(Token),
    /// No expression starts with the token.
    InvalidPrefix(Token),
    /// The bounds of a range are not both single characters.
    InvalidRange { found: String, expected: &'static str },
    /// The text ends where an expression is expected, or in a lone backslash.
    UnexpectedEof,
}

/// A parse error as a value.
pub enum ParseFault {
    Unmatched(Seq<char>),
    ParsingStopped(Token),
    InvalidPrefix(Token),
    InvalidRange { found: Seq<char>, expected: Seq<char> },
    UnexpectedEof,
}

impl View for ParseError {
    type V = ParseFault;

    open spec fn view(&self) -> ParseFault {
        match self {
            ParseError::Unmatched(s) => ParseFault::Unmatched(s@),
            ParseError::ParsingStopped(t) => ParseFault::ParsingStopped(*t),
            ParseError::InvalidPrefix(t) => ParseFault::InvalidPrefix(*t),
            ParseError::InvalidRange { found, expected } => ParseFault::InvalidRange {
                found: found@,
                expected: expected@,
            },
            ParseError::UnexpectedEof => ParseFault::UnexpectedEof,
        }
    }
}

impl ParseFault {
    /// What the error says.
    pub open spec fn message(self) -> Seq<char> {
        match self {
            ParseFault::ParsingStopped(token) => "Parsing stopped at token: `"@ + token.text() + "`"@,
            ParseFault::Unmatched(s) => "Unmatched '"@ + s + "'"@,
            ParseFault::InvalidPrefix(token) => "Token '"@ + token.text()
                + "' cannot appear as a prefix"@,
            ParseFault::InvalidRange { found, expected } => "Invalid group: Expected token '"@
                + expected + "' but found '"@ + found + "'"@,
            ParseFault::UnexpectedEof => "Unexpected EOF"@,
        }
    }
}

impl ParseError {
    /// What the error says.
    pub fn to_text(&self) -> (r: String)
        ensures
            r@ == self@.message(),
    {
        let mut out = String::new();
        match self {
            ParseError::ParsingStopped(token) => {
                push_text(&mut out, "Parsing stopped at token: `");
                token.push_to(&mut out);
                push_text(&mut out, "`");
            },
            ParseError::Unmatched(s) => {
                push_text(&mut out, "Unmatched '");
                push_text(&mut out, s);
                push_text(&mut out, "'");
            },
            ParseError::InvalidPrefix(token) => {
                push_text(&mut out, "Token '");
                token.push_to(&mut out);
                push_text(&mut out, "' cannot appear as a prefix");
            },
            ParseError::InvalidRange { found, expected } => {
                push_text(&mut out, "Invalid group: Expected token '");
                push_text(&mut out, expected);
                push_text(&mut out, "' but found '");
                push_text(&mut out, found.as_str());
                push_text(&mut out, "'");
            },
            ParseError::UnexpectedEof => {
                push_text(&mut out, "Unexpected EOF");
            },
        }
        assert(out@ =~= self@.message());
        out
    }
}

/// The character that stands after a backslash for `c`.
pub open spec fn unescape(c: char) -> char {
    if c == 'n' {
        '\n'
    } else if c == 't' {
        '\t'
    } else if c == 'r' {
        '\r'
    } else {
        c
    }
}

/// The token that a character which is neither white space nor a backslash
/// stands for.
pub open spec fn plain_token(c: char) -> Token {
    if c == '(' {
        Token::OParen
    } else if c == ')' {
        Token::CParen
    } else if c == '|' {
        Token::Union
    } else if c == '*' {
        Token::KleeneS
    } else if c == '+' {
        Token::KleeneP
    } else if c == '?' {
        Token::Optional
    } else if c == '$' {
        Token::Eof
    } else if c == '-' {
        Token::Range
    } else {
        Token::Lit(Lit::Char(c))
    }
}

/// The tokens written so far, and whether a backslash waits for its
/// character.
pub struct Scan {
    pub raw: Seq<Token>,
    pub pending: bool,
}

/// The tokens that the first `k` characters of `source` write, one for each
/// character that is not white space, and one for each backslash with the
/// character after it.
pub open spec fn scan(source: Seq<char>, k: nat) -> Scan
    decreases k,
{
    if k == 0 {
        Scan { raw: Seq::empty(), pending: false }
    } else {
        let prev = scan(source, (k - 1) as nat);
        let c = source[k - 1];
        if prev.pending {
            Scan { raw: prev.raw.push(Token::Lit(Lit::Char(unescape(c)))), pending: false }
        } else if is_whitespace(c) {
            prev
        } else if c == '\\' {
            Scan { raw: prev.raw, pending: true }
        } else {
            Scan { raw: prev.raw.push(plain_token(c)), pending: false }
        }
    }
}

/// A token after which an operand may follow directly.
pub open spec fn ends_operand(t: Token) -> bool {
    t is CParen || t is KleeneS || t is KleeneP || t is Optional || t is Lit
}

/// A token with which an operand starts.
pub open spec fn starts_operand(t: Token) -> bool {
    t is OParen || t is Eof || t is Lit
}

/// The first `k` of the written tokens, with a concatenation between each
/// two of them of which the first ends an operand and the second starts one.
pub open spec fn glued(raw: Seq<Token>, k: nat) -> Seq<Token>
    decreases k,
{
    if k == 0 {
        Seq::empty()
    } else {
        let prev = glued(raw, (k - 1) as nat);
        if k >= 2 && ends_operand(raw[k - 2]) && starts_operand(raw[k - 1]) {
            prev.push(Token::Concat).push(raw[k - 1])
        } else {
            prev.push(raw[k - 1])
        }
    }
}

/// The tokens of a source text, and whether the text is complete: a text
/// that ends in a lone backslash is not.
pub struct TokenStream {
    pub tokens: Seq<Token>,
    pub complete: bool,
}

/// The tokens of `source`. Before the lone backslash at the end of an
/// incomplete text stands the concatenation that its character would have
/// been given.
pub open spec fn tokenize(source: Seq<char>) -> TokenStream {
    let s = scan(source, source.len());
    let g = glued(s.raw, s.raw.len());
    if s.pending && s.raw.len() > 0 && ends_operand(s.raw.last()) {
        TokenStream { tokens: g.push(Token::Concat), complete: false }
    } else {
        TokenStream { tokens: g, complete: !s.pending }
    }
}

/// The tokens of a source text, and how far they have been read.
#[derive(Debug)]
pub(crate) struct Lexer {
    tokens: Vec<Token>,
    pos: usize,
    complete: bool,
}

impl Lexer {
    /// The tokens of the source text.
    pub(crate) closed spec fn stream(&self) -> TokenStream {
        TokenStream { tokens: self.tokens@, complete: self.complete }
    }

    /// How many tokens have been read.
    pub(crate) closed spec fn position(&self) -> nat {
        self.pos as nat
    }

    /// The position lies within the tokens or at their end.
    pub(crate) closed spec fn wf(&self) -> bool {
        self.pos <= self.tokens@.len()
    }

    /// The tokens of `input`, none of them read yet.
    #[must_use]
    pub(crate) fn new(input: &str) -> (r: Self)
        ensures
            r.stream() == tokenize(input@),
            r.position() == 0,
            r.wf(),
    {
        let mut raw: Vec<Token> = Vec::new();
        let mut pending = false;
        for c in it: input.chars()
            invariant
                it.seq() == input@,
                (Scan { raw: raw@, pending }) == scan(input@, it.index() as nat),
        {
            if pending {
                let lit = if c == 'n' {
                    Lit::Char('\n')
                } else if c == 't' {
                    Lit::Char('\t')
                } else if c == 'r' {
                    Lit::Char('\r')
                } else {
                    Lit::Char(c)
                };
                raw.push(Token::Lit(lit));
                pending = false;
            } else if is_whitespace_char(c) {
            } else if c == '\\' {
                pending = true;
            } else {
                let token = if c == '(' {
                    Token::OParen
                } else if c == ')' {
                    Token::CParen
                } else if c == '|' {
                    Token::Union
                } else if c == '*' {
                    Token::KleeneS
                } else if c == '+' {
                    Token::KleeneP
                } else if c == '?' {
                    Token::Optional
                } else if c == '$' {
                    Token::Eof
                } else if c == '-' {
                    Token::Range
                } else {
                    Token::Lit(Lit::Char(c))
                };
                raw.push(token);
            }
        }
        let n = raw.len();
        let mut tokens: Vec<Token> = Vec::new();
        let mut k: usize = 0;
        while k < n
            invariant
                k <= n,
                n == raw@.len(),
                tokens@ == glued(raw@, k as nat),
            decreases n - k,
        {
            let token = raw[k];
            // True if we need to insert an implicit concatenation into the token stream
            if k >= 1 && ends_operand_token(&raw[k - 1]) && starts_operand_token(&token) {
                tokens.push(Token::Concat);
            }
            tokens.push(token);
            k = k + 1;
        }
        if pending && n > 0 && ends_operand_token(&raw[n - 1]) {
            tokens.push(Token::Concat);
        }
        Lexer { tokens, pos: 0, complete: !pending }
    }

    /// The next token, which stays unread; `None` at the end of a complete
    /// text.
    ///
    /// # Errors
    ///
    /// Fails at the end of an incomplete text.
    pub(crate) fn peek(&self) -> (r: Result<Option<Token>, ParseError>)
        requires
            self.wf(),
        ensures
            r == token_at(self.stream(), self.position()),
    {
        if self.pos < self.tokens.len() {
            Ok(Some(self.tokens[self.pos]))
        } else if self.complete {
            Ok(None)
        } else {
            Err(ParseError::UnexpectedEof)
        }
    }

    /// Reads the next token; `None` at the end of a complete text.
    ///
    /// # Errors
    ///
    /// Fails at the end of an incomplete text.
    pub(crate) fn next(&mut self) -> (r: Result<Option<Token>, ParseError>)
        requires
            old(self).wf(),
        ensures
            final(self).wf(),
            final(self).stream() == old(self).stream(),
            r == token_at(old(self).stream(), old(self).position()),
            final(self).position() == if old(self).position() < old(self).stream().tokens.len() {
                old(self).position() + 1
            } else {
                old(self).position()
            },
    {
        if self.pos < self.tokens.len() {
            let token = self.tokens[self.pos];
            self.pos = self.pos + 1;
            Ok(Some(token))
        } else if self.complete {
            Ok(None)
        } else {
            Err(ParseError::UnexpectedEof)
        }
    }
}

/// The token at position `pos` of the stream: none at the end of a complete
/// text, an error at the end of an incomplete one.
pub open spec fn token_at(ts: TokenStream, pos: nat) -> Result<Option<Token>, ParseError> {
    if pos < ts.tokens.len() {
        Ok(Some(ts.tokens[pos as int]))
    } else if ts.complete {
        Ok(None)
    } else {
        Err(ParseError::UnexpectedEof)
    }
}

/// Whether an operand may follow the token directly.
fn ends_operand_token(t: &Token) -> (r: bool)
    ensures
        r == ends_operand(*t),
{
    match t {
        Token::CParen | Token::KleeneS | Token::KleeneP | Token::Optional | Token::Lit(_) => true,
        _ => false,
    }
}

/// Whether an operand starts with the token.
fn starts_operand_token(t: &Token) -> (r: bool)
    ensures
        r == starts_operand(*t),
{
    match t {
        Token::OParen | Token::Eof | Token::Lit(_) => true,
        _ => false,
    }
}

} // verus!
