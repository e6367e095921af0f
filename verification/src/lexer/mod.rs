//! Longest-match tokenization of an input with a fused automaton for the
//! tokens and an automaton for what is skipped between them.

use std::marker::PhantomData;
use vstd::prelude::*;
use vstd::std_specs::convert::FromSpecImpl;
use crate::text::{
    byte_len, first_char, is_prefix_len, len_utf8, push_decimal, push_text, skip_bytes, utf8_len,
};

pub mod prelude;
pub mod token;

pub use token::{Spanned, Token};

verus! {

/// A tokenizer: it walks over an input and gives the tokens of the kind `T`
/// one after the other, each the longest that starts where it stands.
#[derive(Debug)]
pub struct Lexer<'input, T> {
    input: &'input str,
    consumed: usize,
    phantom: PhantomData<T>,
    /// True when the input is empty and a `T::eof()` token has been returned.
    sent_eof: bool,
    /// True when an error has been found and we could not skip forward in the input stream.
    /// When this is `true` the tokenizer only produces `None`.
    sent_error: bool,
}

/// What a tokenizer stumbles over.
#[derive(Debug, Clone, Copy, PartialEq, Eq)]
pub enum LexError {
    /// No token starts at the byte offset.
    UnrecognizedToken(usize),
}

impl LexError {
    /// What the error says.
    pub open spec fn message(self) -> Seq<char> {
        match self {
            LexError::UnrecognizedToken(loc) => "Unrecognized token at "@ + crate::text::dec_digits(
                loc as nat,
            ),
        }
    }

    /// What the error says.
    pub fn to_text(&self) -> (r: String)
        ensures
            r@ == self.message(),
    {
        let mut out = String::new();
        match self {
            LexError::UnrecognizedToken(loc) => {
                push_text(&mut out, "Unrecognized token at ");
                push_decimal(&mut out, *loc);
            },
        }
        assert(out@ =~= self.message());
        out
    }
}

impl From<LexError> for String {
    fn from(value: LexError) -> (r: Self)
        ensures
            r@ == value.message(),
    {
        value.to_text()
    }
}

impl FromSpecImpl<LexError> for String {
    open spec fn obeys_from_spec() -> bool {
        false
    }

    open spec fn from_spec(value: LexError) -> Self {
        vstd::pervasive::arbitrary()
    }
}

impl<'input, T> Lexer<'input, T> {
    /// The state of the tokenizer.
    pub closed spec fn state(&self) -> LexState {
        LexState {
            remaining: self.input@,
            offset: self.consumed as int,
            finished: self.sent_eof || self.sent_error,
        }
    }

    /// What is left of the input.
    pub open spec fn remaining(&self) -> Seq<char> {
        self.state().remaining
    }

    /// How many bytes of the input have been passed.
    pub open spec fn offset(&self) -> int {
        self.state().offset
    }

    /// Whether the tokenizer has come to its end.
    pub open spec fn finished(&self) -> bool {
        self.state().finished
    }

    /// The offset can be moved to the end of the input.
    pub closed spec fn wf(&self) -> bool {
        self.consumed + utf8_len(self.input@) <= usize::MAX
    }

    /// A tokenizer at the start of `input`.
    #[must_use]
    pub fn new(input: &'input str) -> (r: Self)
        ensures
            r.wf(),
            r.remaining() == input@,
            r.offset() == 0,
            !r.finished(),
    {
        let _ = byte_len(input);
        Lexer { input, consumed: 0, phantom: PhantomData, sent_eof: false, sent_error: false }
    }

    /// Passes the first `size` bytes of what is left.
    fn advance(&mut self, size: usize)
        requires
            old(self).wf(),
            is_prefix_len(old(self).remaining(), size as int),
        ensures
            final(self).wf(),
            final(self).offset() == old(self).offset() + size,
            final(self).finished() == old(self).finished(),
            final(self).sent_eof == old(self).sent_eof,
            final(self).sent_error == old(self).sent_error,
            utf8_len(final(self).remaining()) + size == utf8_len(old(self).remaining()),
            exists|j: int|
                0 <= j <= old(self).remaining().len() && size == #[trigger] utf8_len(
                    old(self).remaining().take(j),
                ) && final(self).remaining() == old(self).remaining().skip(j),
    {
        let ghost j = choose|j: int|
            0 <= j <= self.input@.len() && size == #[trigger] utf8_len(self.input@.take(j));
        proof {
            crate::text::lemma_utf8_len_split(self.input@, j);
        }
        self.input = skip_bytes(self.input, size, Ghost(j));
        self.consumed += size;
    }
}

/// The state of a tokenizer as a value.
pub struct LexState {
    /// What is left of the input.
    pub remaining: Seq<char>,
    /// How many bytes of the input have been passed.
    pub offset: int,
    /// Whether the tokenizer has come to its end.
    pub finished: bool,
}

/// What a step of the tokenizer gives, without the token itself.
pub enum Outcome {
    /// Nothing more.
    End,
    /// A token between two byte offsets.
    Token { start: int, end: int },
    /// No token starts at the byte offset.
    Error { at: int },
}

/// What the result of a step gives, without the token itself.
pub open spec fn outcome_of<T>(r: Option<Result<Spanned<T>, LexError>>) -> Outcome {
    match r {
        None => Outcome::End,
        Some(Ok(span)) => Outcome::Token { start: span.start as int, end: span.end as int },
        Some(Err(LexError::UnrecognizedToken(at))) => Outcome::Error { at: at as int },
    }
}

/// A step of the tokenizer that passes `skipped` characters as what lies
/// between tokens. A finished tokenizer gives nothing more. At the end of
/// the input the tokenizer finishes, with nothing or with an empty token
/// there. Else it gives a token that starts where the skipping ended and
/// takes some of the characters that follow, or an error there, after which
/// one character is passed.
pub open spec fn lex_step_after(before: LexState, skipped: int, after: LexState, outcome: Outcome) -> bool {
    let rest = before.remaining.skip(skipped);
    let at = before.offset + utf8_len(before.remaining.take(skipped));
    if before.finished {
        outcome is End && after == (LexState { remaining: rest, offset: at, finished: true })
    } else if rest.len() == 0 {
        after == (LexState { remaining: rest, offset: at, finished: true }) && (outcome is End
            || outcome == (Outcome::Token { start: at, end: at }))
    } else {
        match outcome {
            Outcome::End => false,
            Outcome::Token { start, end } => start == at && exists|taken: int|
                0 <= taken <= rest.len() && end == at + #[trigger] utf8_len(rest.take(taken)) && after
                    == (LexState { remaining: rest.skip(taken), offset: end, finished: false }),
            Outcome::Error { at: place } => place == at && after == (LexState {
                remaining: rest.skip(1),
                offset: at + crate::text::char_width(rest[0]),
                finished: false,
            }),
        }
    }
}

/// What holds of every step of the tokenizer, whatever the automata of the
/// token kind report: it is a step that passes some characters as what lies
/// between tokens.
pub open spec fn lex_step(before: LexState, after: LexState, outcome: Outcome) -> bool {
    exists|skipped: int|
        0 <= skipped <= before.remaining.len() && #[trigger] lex_step_after(
            before,
            skipped,
            after,
            outcome,
        )
}

/// The tokenizer goes forward only: a token lies at or after the offset
/// before it and ends at the offset after it, and an error lies at or after
/// the offset before it, and before the offset after it.
pub proof fn lemma_lex_step_forward(before: LexState, after: LexState, outcome: Outcome)
    requires
        lex_step(before, after, outcome),
    ensures
        before.offset <= after.offset,
        match outcome {
            Outcome::End => after.finished,
            Outcome::Token { start, end } => before.offset <= start <= end && end == after.offset,
            Outcome::Error { at } => before.offset <= at < after.offset,
        },
{
    let skipped = choose|skipped: int|
        0 <= skipped <= before.remaining.len() && #[trigger] lex_step_after(
            before,
            skipped,
            after,
            outcome,
        );
    let rest = before.remaining.skip(skipped);
    if !before.finished && rest.len() > 0 {
        crate::text::lemma_char_width_bounds(rest[0]);
    }
}

/// Tokens and errors come in the order of the input: after a token that is
/// not empty, and after an error, whatever the tokenizer gives next starts
/// further on.
pub proof fn lemma_lexer_progress(s0: LexState, s1: LexState, s2: LexState, first: Outcome, second: Outcome)
    requires
        lex_step(s0, s1, first),
        lex_step(s1, s2, second),
    ensures
        match (first, second) {
            (Outcome::Token { start, end }, Outcome::Token { start: next, .. }) => start < end ==> start
                < next,
            (Outcome::Token { start, end }, Outcome::Error { at }) => start < end ==> start < at,
            (Outcome::Error { at }, Outcome::Token { start: next, .. }) => at < next,
            (Outcome::Error { at }, Outcome::Error { at: next }) => at < next,
            _ => true,
        },
{
    lemma_lex_step_forward(s0, s1, first);
    lemma_lex_step_forward(s1, s2, second);
}

impl<'input, T> Lexer<'input, T> {
    /// Ends the tokenizer at the end of the input, with the token for the
    /// end if there is one.
    pub fn finish(&mut self, eof: Option<T>) -> (r: Option<Result<Spanned<T>, LexError>>)
        ensures
            old(self).wf() ==> final(self).wf(),
            final(self).finished(),
            final(self).remaining() == old(self).remaining(),
            final(self).offset() == old(self).offset(),
            r == match eof {
                Some(token) => Some(
                    Ok::<Spanned<T>, LexError>(
                        Spanned {
                            start: old(self).offset() as usize,
                            token,
                            end: old(self).offset() as usize,
                        },
                    ),
                ),
                None => None,
            },
    {
        self.sent_eof = true;
        match eof {
            Some(t) => Some(Ok(Spanned { start: self.consumed, token: t, end: self.consumed })),
            None => None,
        }
    }

    /// Takes what was found at the start of what is left: a token of the
    /// given length in bytes, which is passed; or nothing, which is an error
    /// at the present offset, after which one character is passed.
    pub fn emit(&mut self, found: Option<(usize, T)>) -> (r: Result<Spanned<T>, LexError>)
        requires
            old(self).wf(),
            found matches Some((size, _)) ==> is_prefix_len(old(self).remaining(), size as int),
        ensures
            final(self).wf(),
            match found {
                Some((size, token)) => {
                    &&& r == Ok::<Spanned<T>, LexError>(
                        Spanned {
                            start: old(self).offset() as usize,
                            token,
                            end: (old(self).offset() + size) as usize,
                        },
                    )
                    &&& final(self).offset() == old(self).offset() + size
                    &&& final(self).finished() == old(self).finished()
                    &&& exists|j: int|
                        0 <= j <= old(self).remaining().len() && size == #[trigger] utf8_len(
                            old(self).remaining().take(j),
                        ) && final(self).remaining() == old(self).remaining().skip(j)
                },
                None => {
                    &&& r == Err::<Spanned<T>, LexError>(
                        LexError::UnrecognizedToken(old(self).offset() as usize),
                    )
                    &&& if old(self).remaining().len() > 0 {
                        &&& final(self).remaining() == old(self).remaining().skip(1)
                        &&& final(self).offset() == old(self).offset() + crate::text::char_width(
                            old(self).remaining()[0],
                        )
                        &&& final(self).finished() == old(self).finished()
                    } else {
                        &&& final(self).remaining() == old(self).remaining()
                        &&& final(self).offset() == old(self).offset()
                        &&& final(self).finished()
                    }
                },
            },
    {
        match found {
            Some((consumed, token)) => {
                let start = self.consumed;
                self.advance(consumed);
                Ok(Spanned { start, token, end: self.consumed })
            },
            None => {
                let consumed = self.consumed;
                // We try to skip one char and continue.
                if let Some(c) = first_char(self.input) {
                    proof {
                        let s = self.input@;
                        assert(s.take(1) =~= seq![c]);
                        crate::text::lemma_encode_single(c);
                        assert(utf8_len(s.take(1)) == crate::text::char_width(c));
                    }
                    self.advance(len_utf8(c));
                    proof {
                        let s = old(self).input@;
                        let j = choose|j: int|
                            0 <= j <= s.len() && crate::text::char_width(c) == #[trigger] utf8_len(
                                s.take(j),
                            ) && self.input@ == s.skip(j);
                        crate::text::lemma_utf8_len_prefix(s, 0, j);
                        crate::text::lemma_utf8_len_prefix(s, 1, j);
                        crate::text::lemma_utf8_len_prefix(s, j, 1);
                        if j > 1 {
                            crate::text::lemma_utf8_len_prefix(s, 1, 2);
                            crate::text::lemma_utf8_len_prefix(s, 2, j);
                        }
                        assert(s.take(0) =~= Seq::<char>::empty());
                        assert(utf8_len(Seq::<char>::empty()) == 0);
                        crate::text::lemma_char_width_bounds(c);
                    }
                } else {
                    // We end the tokenizer if we can't skip
                    self.sent_error = true;
                }
                Err(LexError::UnrecognizedToken(consumed))
            },
        }
    }
}

/// The kind `T` may skip `n` bytes at the start of `text`, which are its
/// first `j` characters.
pub open spec fn may_skip<T: Token>(text: Seq<char>, n: usize, j: int) -> bool {
    &&& 0 <= j <= text.len()
    &&& n == utf8_len(text.take(j))
    &&& exists|s: &str| s@ == text && #[trigger] call_ensures(T::skip_chars, (s,), n)
}

/// The kind `T` may find `found` at the start of `text`.
pub open spec fn may_find<T: Token>(text: Seq<char>, found: Option<(usize, T)>) -> bool {
    exists|s: &str| s@ == text && #[trigger] call_ensures(T::next_match, (s,), found)
}

/// What the tokenizer gives at the end of the input, at the offset `at`:
/// the token that the kind `T` may give for the end, with an empty span, or
/// nothing if it gives none.
pub open spec fn given_at_end<T: Token>(at: int, r: Option<Result<Spanned<T>, LexError>>) -> bool {
    exists|eof: Option<T>| #[trigger]
        call_ensures(T::eof, (), eof) && r == match eof {
            Some(token) => Some(
                Ok::<Spanned<T>, LexError>(Spanned { start: at as usize, token, end: at as usize }),
            ),
            None => None,
        }
}

/// What the tokenizer gives and where it stands after `found` was found at
/// the start of `rest`, at the offset `at`: the token with its span, the
/// tokenizer behind it; or, if nothing was found, an error at `at`, the
/// tokenizer one character further on.
pub open spec fn given_for<T>(
    rest: Seq<char>,
    at: int,
    found: Option<(usize, T)>,
    after: LexState,
    r: Option<Result<Spanned<T>, LexError>>,
) -> bool {
    match found {
        Some((size, token)) => {
            &&& r == Some(
                Ok::<Spanned<T>, LexError>(
                    Spanned { start: at as usize, token, end: (at + size) as usize },
                ),
            )
            &&& exists|taken: int|
                0 <= taken <= rest.len() && size == #[trigger] utf8_len(rest.take(taken)) && after
                    == (LexState { remaining: rest.skip(taken), offset: at + size, finished: false })
        },
        None => {
            &&& r == Some(Err::<Spanned<T>, LexError>(LexError::UnrecognizedToken(at as usize)))
            &&& rest.len() > 0
            &&& after == (LexState {
                remaining: rest.skip(1),
                offset: at + crate::text::char_width(rest[0]),
                finished: false,
            })
        },
    }
}

/// What the tokenizer gives where tokens are looked for at the start of
/// `rest`: what follows from something that the kind `T` may find there.
pub open spec fn given_in<T: Token>(
    rest: Seq<char>,
    at: int,
    after: LexState,
    r: Option<Result<Spanned<T>, LexError>>,
) -> bool {
    exists|found: Option<(usize, T)>| #[trigger]
        may_find::<T>(rest, found) && given_for(rest, at, found, after, r)
}

/// A step of the tokenizer of the kind `T` that skips `n` bytes, the first
/// `j` characters of what is left. A finished tokenizer gives nothing more.
/// At the end of the input the tokenizer finishes, with the token that the
/// kind gives for the end, if any. Else it gives what the kind finds where
/// the skipping ended.
pub open spec fn token_step_after<T: Token>(
    before: LexState,
    n: usize,
    j: int,
    after: LexState,
    r: Option<Result<Spanned<T>, LexError>>,
) -> bool {
    let rest = before.remaining.skip(j);
    let at = before.offset + n;
    &&& may_skip::<T>(before.remaining, n, j)
    &&& if before.finished {
        r is None && after == (LexState { remaining: rest, offset: at, finished: true })
    } else if rest.len() == 0 {
        after == (LexState { remaining: rest, offset: at, finished: true }) && given_at_end::<T>(at, r)
    } else {
        given_in::<T>(rest, at, after, r)
    }
}

/// A step of the tokenizer of the kind `T`: one that skips what the kind
/// may skip at the start of what is left, and then gives what the kind may
/// find there.
pub open spec fn token_step<T: Token>(
    before: LexState,
    after: LexState,
    r: Option<Result<Spanned<T>, LexError>>,
) -> bool {
    exists|n: usize, j: int| #[trigger] token_step_after::<T>(before, n, j, after, r)
}

impl<'input, T: Token> Lexer<'input, T> {
    /// The next token or error, or `None` when there is nothing more.
    /// What is skipped between tokens is passed first: as much as
    /// `T::skip_chars` gives for what is left. Then, unless the tokenizer
    /// has finished, it gives `T::eof` at the end of the input, and else the
    /// token of `T::next_match`, or an error where that finds none.
    pub fn next(&mut self) -> (r: Option<Result<Spanned<T>, LexError>>)
        requires
            old(self).wf(),
        ensures
            final(self).wf(),
            lex_step(old(self).state(), final(self).state(), outcome_of(r)),
            token_step::<T>(old(self).state(), final(self).state(), r),
    {
        let ghost before = self.state();
        let ghost left = self.input;
        let skipped = T::skip_chars(self.input);
        assert(call_ensures(T::skip_chars, (left,), skipped));
        self.advance(skipped);
        let ghost mid = self.input;
        let ghost rest = self.input@;
        let ghost at = self.consumed as int;
        let ghost passed = choose|j: int|
            0 <= j <= before.remaining.len() && skipped == #[trigger] utf8_len(before.remaining.take(j))
                && rest == before.remaining.skip(j);

        assert(may_skip::<T>(before.remaining, skipped, passed));
        if self.sent_error || self.sent_eof {
            assert(lex_step_after(before, passed, self.state(), Outcome::End));
            assert(token_step_after::<T>(before, skipped, passed, self.state(), None));
            return None;
        }
        if self.input.is_empty() {
            let eof = T::eof();
            assert(call_ensures(T::eof, (), eof));
            let end = self.finish(eof);
            assert(lex_step_after(before, passed, self.state(), outcome_of(end)));
            assert(given_at_end::<T>(at, end));
            assert(token_step_after::<T>(before, skipped, passed, self.state(), end));
            return end;
        }
        let found = T::next_match(self.input);
        assert(call_ensures(T::next_match, (mid,), found));
        assert(may_find::<T>(rest, found));
        let ghost seen = found;
        let token = self.emit(found);
        proof {
            match seen {
                Some((size, _)) => {
                    let taken = choose|j: int|
                        0 <= j <= rest.len() && size == #[trigger] utf8_len(rest.take(j))
                            && self.remaining() == rest.skip(j);
                    assert(token is Ok);
                    assert(self.state() == LexState {
                        remaining: rest.skip(taken),
                        offset: at + utf8_len(rest.take(taken)),
                        finished: false,
                    });
                },
                None => {
                    assert(self.state() == LexState {
                        remaining: rest.skip(1),
                        offset: at + crate::text::char_width(rest[0]),
                        finished: false,
                    });
                },
            }
            assert(lex_step_after(before, passed, self.state(), outcome_of(Some(token))));
            assert(given_for(rest, at, seen, self.state(), Some(token)));
            assert(given_in::<T>(rest, at, self.state(), Some(token)));
            assert(token_step_after::<T>(before, skipped, passed, self.state(), Some(token)));
        }
        Some(token)
    }
}

} // verus!
