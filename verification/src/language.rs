use vstd::prelude::*;
use vstd::std_specs::convert::FromSpecImpl;
use crate::parse::{ParseError, Token};
use crate::text::{push_decimal, push_text, str_eq};

verus! {

/// The name of a pattern inside a set of patterns.
#[derive(Debug, Clone, Copy, PartialEq, Eq, Hash)]
pub struct Label(pub &'static str);

impl View for Label {
    type V = Seq<char>;

    open spec fn view(&self) -> Seq<char> {
        self.0@
    }
}

impl Label {
    /// Whether two labels spell the same name.
    pub fn same(&self, other: &Label) -> (r: bool)
        ensures
            r == (self@ == other@),
    {
        str_eq(self.0, other.0)
    }
}

impl From<&'static str> for Label {
    fn from(value: &'static str) -> (r: Self) {
        Label(value)
    }
}

impl FromSpecImpl<&'static str> for Label {
    open spec fn obeys_from_spec() -> bool {
        true
    }

    open spec fn from_spec(value: &'static str) -> Self {
        Label(value)
    }
}

impl From<Label> for &'static str {
    fn from(value: Label) -> (r: Self) {
        value.0
    }
}

impl FromSpecImpl<Label> for &'static str {
    open spec fn obeys_from_spec() -> bool {
        true
    }

    open spec fn from_spec(value: Label) -> Self {
        value.0
    }
}

/// The group a simulated state is in: the name of the innermost group marker
/// on the way to it, if any.
pub type Group = Option<Seq<char>>;

/// The group that an optional label stands for.
pub open spec fn group_of(label: Option<Label>) -> Group {
    match label {
        Some(l) => Some(l@),
        None => None,
    }
}

/// Whether two optional labels stand for the same group.
pub fn same_group(a: &Option<Label>, b: &Option<Label>) -> (r: bool)
    ensures
        r == (group_of(*a) == group_of(*b)),
{
    match (a, b) {
        (Some(x), Some(y)) => x.same(y),
        (None, None) => true,
        _ => false,
    }
}

/// A match of a prefix of the input.
#[derive(Debug, PartialEq, Eq, Clone, Copy)]
pub enum Match {
    /// Match from group
    Group(Label, usize),
    /// Match without group
    NoGroup(usize),
}

impl Match {
    /// The length of the matched prefix in bytes.
    pub open spec fn size(self) -> usize {
        match self {
            Match::Group(_, s) => s,
            Match::NoGroup(s) => s,
        }
    }

    /// The group of the match.
    pub open spec fn group(self) -> Group {
        match self {
            Match::Group(l, _) => Some(l@),
            Match::NoGroup(_) => None,
        }
    }

    /// The length of the matched prefix in bytes.
    #[must_use]
    pub fn match_size(&self) -> (s: usize)
        ensures
            s == self.size(),
    {
        match *self {
            Match::Group(_, s) => s,
            Match::NoGroup(s) => s,
        }
    }
}

/// The match of a prefix of the given length in the group of the label, if
/// there is one.
pub open spec fn match_of(value: (Option<Label>, usize)) -> Match {
    match value.0 {
        Some(l) => Match::Group(l, value.1),
        None => Match::NoGroup(value.1),
    }
}

impl From<(Option<Label>, usize)> for Match {
    fn from(value: (Option<Label>, usize)) -> (r: Self) {
        match value.0 {
            Some(l) => Match::Group(l, value.1),
            None => Match::NoGroup(value.1),
        }
    }
}

impl FromSpecImpl<(Option<Label>, usize)> for Match {
    open spec fn obeys_from_spec() -> bool {
        true
    }

    open spec fn from_spec(value: (Option<Label>, usize)) -> Self {
        match_of(value)
    }
}

/// Why a postfix program could not be compiled.
#[derive(Debug, Clone, PartialEq, Eq)]
pub enum CompileError {
    /// Did not expect an empty stack when handling token.
    EmptyStack { token: Token },
    /// Expected a stack of size 1 but found stack with `size`.
    NonUnaryStack { size: usize },
    /// An opening parenthesis in a postfix program.
    UnexpectedOpenParen,
    /// A closing parenthesis in a postfix program.
    UnexpectedCloseParen,
    /// A range sign in a postfix program.
    UnexpectedRange,
    /// The source text could not be parsed.
    ParseError(String),
}

/// Why a source text could not be made into a language.
#[derive(Debug, Clone, PartialEq, Eq)]
pub enum LanguageError {
    /// The postfix program could not be compiled.
    CompileError(CompileError),
    /// The source text could not be parsed.
    ParseError(ParseError),
}

impl From<CompileError> for LanguageError {
    fn from(e: CompileError) -> (r: Self) {
        LanguageError::CompileError(e)
    }
}

impl FromSpecImpl<CompileError> for LanguageError {
    open spec fn obeys_from_spec() -> bool {
        true
    }

    open spec fn from_spec(e: CompileError) -> Self {
        LanguageError::CompileError(e)
    }
}

impl From<ParseError> for LanguageError {
    fn from(e: ParseError) -> (r: Self) {
        LanguageError::ParseError(e)
    }
}

impl FromSpecImpl<ParseError> for LanguageError {
    open spec fn obeys_from_spec() -> bool {
        true
    }

    open spec fn from_spec(e: ParseError) -> Self {
        LanguageError::ParseError(e)
    }
}

/// What every kind of language offers: to be built from a source text, and
/// to be matched against an input.
pub trait Language: Sized {
    /// What must hold of a language for it to be matched against an input.
    spec fn well_formed(&self) -> bool;

    /// Check if `input` is accepted by the regex.
    /// Returns the matches, each with its length from the start in bytes;
    /// none if no match was found.
    ///
    /// The match will always start on the first char in the input.
    #[must_use]
    fn is_match(&self, input: &str) -> (r: Vec<Match>)
        requires
            self.well_formed(),
        ensures
            forall|i: int|
                0 <= i < r@.len() ==> crate::text::is_prefix_len(input@, (#[trigger] r@[i]).size() as int),
    ;

    /// Parse a language string.
    fn try_from_language(source: &str) -> (r: Result<Self, LanguageError>)
        ensures
            r matches Ok(l) ==> l.well_formed(),
    ;
}

impl Label {
    /// The name as a text.
    pub fn to_text(&self) -> (r: String)
        ensures
            r@ == self@,
    {
        let mut out = String::new();
        push_text(&mut out, self.0);
        assert(out@ =~= self@);
        out
    }
}

impl CompileError {
    /// What the error says, with a line feed at its end.
    pub open spec fn message(self) -> Seq<char> {
        match self {
            CompileError::EmptyStack { token } => "Empty stack when handling token '"@ + token.text()
                + "'\n"@,
            CompileError::NonUnaryStack { size } =>
                "Expected stack of size 1 but the stack had size "@ + crate::text::dec_digits(
                    size as nat,
                ) + "\n"@,
            CompileError::UnexpectedOpenParen => "Unexpected '('\n"@,
            CompileError::UnexpectedCloseParen => "Unexpected ')'\n"@,
            CompileError::UnexpectedRange => "Unexpected '-'\n"@,
            CompileError::ParseError(s) => "Parse error: "@ + s@ + "\n"@,
        }
    }

    /// What the error says.
    pub fn to_text(&self) -> (r: String)
        ensures
            r@ == self.message(),
    {
        let mut out = String::new();
        match self {
            CompileError::EmptyStack { token } => {
                push_text(&mut out, "Empty stack when handling token '");
                token.push_to(&mut out);
                push_text(&mut out, "'\n");
            },
            CompileError::NonUnaryStack { size } => {
                push_text(&mut out, "Expected stack of size 1 but the stack had size ");
                push_decimal(&mut out, *size);
                push_text(&mut out, "\n");
            },
            CompileError::UnexpectedOpenParen => {
                push_text(&mut out, "Unexpected '('\n");
            },
            CompileError::UnexpectedCloseParen => {
                push_text(&mut out, "Unexpected ')'\n");
            },
            CompileError::UnexpectedRange => {
                push_text(&mut out, "Unexpected '-'\n");
            },
            CompileError::ParseError(s) => {
                push_text(&mut out, "Parse error: ");
                push_text(&mut out, s.as_str());
                push_text(&mut out, "\n");
            },
        }
        assert(out@ =~= self.message());
        out
    }
}

impl LanguageError {
    /// What the error says.
    pub open spec fn message(self) -> Seq<char> {
        match self {
            LanguageError::CompileError(e) => e.message(),
            LanguageError::ParseError(e) => e@.message(),
        }
    }

    /// What the error says.
    pub fn to_text(&self) -> (r: String)
        ensures
            r@ == self.message(),
    {
        match self {
            LanguageError::CompileError(e) => e.to_text(),
            LanguageError::ParseError(e) => e.to_text(),
        }
    }
}

} // verus!
