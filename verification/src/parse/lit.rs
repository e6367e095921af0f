use vstd::prelude::*;
use crate::text::{escape_default, push_escaped};

verus! {

/// What a consuming transition may demand of one input character.
#[derive(Debug, Clone, Copy, PartialEq, Eq, Hash)]
pub enum Lit {
    /// Exactly this character.
    Char(char),
    /// Any character at all, newline included.
    Any,
    /// Any character between the two bounds, both included.
    Range(char, char),
}

impl Lit {
    /// The characters this literal stands for.
    pub open spec fn spec_accepts(self, c: char) -> bool {
        match self {
            Lit::Char(k) => k == c,
            Lit::Any => true,
            Lit::Range(lo, hi) => lo <= c && c <= hi,
        }
    }

    /// Whether the literal stands for `c`.
    #[must_use]
    pub fn accepts(&self, c: char) -> (r: bool)
        ensures
            r == self.spec_accepts(c),
    {
        match self {
            Lit::Char(k) => *k == c,
            Lit::Any => true,
            Lit::Range(lo, hi) => *lo <= c && c <= *hi,
        }
    }
}

/// The characters that a literal is written with a backslash before.
pub open spec fn needs_backslash(c: char) -> bool {
    c == '+' || c == '-' || c == '*' || c == '?' || c == '(' || c == ')'
}

impl Lit {
    /// How the literal is written.
    pub open spec fn text(self) -> Seq<char> {
        match self {
            Lit::Any => seq!['.'],
            Lit::Char(c) => if needs_backslash(c) {
                seq!['\\', c]
            } else {
                escape_default(c)
            },
            Lit::Range(lo, hi) => seq!['(', lo, '-', hi, ')'],
        }
    }

    /// Appends the literal as it is written.
    pub fn push_to(&self, out: &mut String)
        ensures
            final(out)@ == old(out)@ + self.text(),
    {
        match self {
            Lit::Any => {
                out.push('.');
            },
            Lit::Char(c) => {
                let c = *c;
                if c == '+' || c == '-' || c == '*' || c == '?' || c == '(' || c == ')' {
                    out.push('\\');
                    out.push(c);
                } else {
                    push_escaped(out, c);
                }
            },
            Lit::Range(lo, hi) => {
                out.push('(');
                out.push(*lo);
                out.push('-');
                out.push(*hi);
                out.push(')');
            },
        }
        assert(out@ =~= old(out)@ + self.text());
    }

    /// The literal as it is written.
    pub fn to_text(&self) -> (r: String)
        ensures
            r@ == self.text(),
    {
        let mut out = String::new();
        self.push_to(&mut out);
        assert(out@ =~= self.text());
        out
    }
}

} // verus!
