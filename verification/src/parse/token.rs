use vstd::prelude::*;
use super::lit::Lit;

verus! {

/// A token of the surface grammar.
#[derive(Debug, Clone, Copy, PartialEq, Eq, Hash)]
pub enum Token {
    /// Matches the end of input '$'
    Eof,
    /// Opening parenthesis '('
    OParen,
    /// Closing parenthesis ')'
    CParen,
    /// Kleene Star '*'
    KleeneS,
    /// Kleene Plus '+'
    KleeneP,
    /// Concatenation (implicit)
    Concat,
    /// Union '|'
    Union,
    /// Optional '?'
    Optional,
    /// Range '-'
    Range,
    /// Singleton and group
    Lit(Lit),
}

impl Token {
    /// Left and right binding power of an infix operator.
    pub open spec fn spec_infix_precedence(self) -> Option<(usize, usize)> {
        match self {
            Token::Range => Some((12usize, 11usize)),
            Token::Concat => Some((4usize, 3usize)),
            Token::Union => Some((2usize, 1usize)),
            _ => None,
        }
    }

    /// Binding power of a postfix operator.
    pub open spec fn spec_postfix_precedence(self) -> Option<usize> {
        match self {
            Token::KleeneP | Token::KleeneS => Some(10usize),
            Token::Optional => Some(9usize),
            _ => None,
        }
    }

    /// How tightly an infix operator binds to its left and to its right;
    /// `None` for every other token.
    #[must_use]
    pub fn infix_precedence(&self) -> (r: Option<(usize, usize)>)
        ensures
            r == self.spec_infix_precedence(),
    {
        match self {
            Token::Range => Some((12, 11)),
            Token::Concat => Some((4, 3)),
            Token::Union => Some((2, 1)),
            _ => None,
        }
    }

    /// How tightly a postfix operator binds; `None` for every other token.
    #[must_use]
    pub fn postfix_precedence(&self) -> (r: Option<usize>)
        ensures
            r == self.spec_postfix_precedence(),
    {
        match self {
            Token::KleeneP | Token::KleeneS => Some(10),
            Token::Optional => Some(9),
            _ => None,
        }
    }
}

impl Token {
    /// How the token is written. Concatenation is written as nothing.
    pub open spec fn text(self) -> Seq<char> {
        match self {
            Token::OParen => seq!['('],
            Token::CParen => seq![')'],
            Token::KleeneS => seq!['*'],
            Token::KleeneP => seq!['+'],
            Token::Concat => Seq::empty(),
            Token::Union => seq!['|'],
            Token::Optional => seq!['?'],
            Token::Range => seq!['-'],
            Token::Eof => seq!['$'],
            Token::Lit(c) => c.text(),
        }
    }

    /// Appends the token as it is written.
    pub fn push_to(&self, out: &mut String)
        ensures
            final(out)@ == old(out)@ + self.text(),
    {
        match self {
            Token::OParen => {
                out.push('(');
            },
            Token::CParen => {
                out.push(')');
            },
            Token::KleeneS => {
                out.push('*');
            },
            Token::KleeneP => {
                out.push('+');
            },
            Token::Concat => {},
            Token::Union => {
                out.push('|');
            },
            Token::Optional => {
                out.push('?');
            },
            Token::Range => {
                out.push('-');
            },
            Token::Eof => {
                out.push('$');
            },
            Token::Lit(c) => {
                c.push_to(out);
            },
        }
        assert(out@ =~= old(out)@ + self.text());
    }

    /// The token as it is written.
    pub fn to_text(&self) -> (r: String)
        ensures
            r@ == self.text(),
    {
        let mut out = String::new();
        self.push_to(&mut out);
        assert(out@ =~= self.text());
        out
    }
}

} // verus!
