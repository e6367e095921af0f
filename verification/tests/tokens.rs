use std::sync::OnceLock;

use automata_rust::language::Language;
use automata_rust::lexer::prelude::{LexError, Lexer, NFASet, Spanned, Token, NFA};

#[derive(Debug, Clone, Copy, PartialEq, Eq)]
enum Word {
    Var,
    Op,
    Num,
    End,
}

static WORD_SKIP: OnceLock<NFA> = OnceLock::new();
static WORD_SET: OnceLock<NFASet> = OnceLock::new();

impl Token for Word {
    fn eof() -> Option<Self> {
        Some(Word::End)
    }

    fn get_skip_reg() -> &'static str {
        r"(\ |\t|\n)*"
    }

    fn skip_reg() -> &'static NFA {
        WORD_SKIP.get_or_init(|| NFA::try_from_language(Self::get_skip_reg()).unwrap())
    }

    fn get_token_set() -> &'static NFASet {
        WORD_SET.get_or_init(|| {
            NFASet::build(vec![
                (
                    "var",
                    NFA::try_from_language(r"(a-z|A-Z)(a-z|A-Z|0-9)*").unwrap(),
                ),
                ("op", NFA::try_from_language(r"\+|\-").unwrap()),
                ("num", NFA::try_from_language(r"(0-9)+").unwrap()),
            ])
            .unwrap()
        })
    }

    fn token_from_label(label: &'static str) -> Self {
        match label {
            "var" => Word::Var,
            "op" => Word::Op,
            "num" => Word::Num,
            _ => unreachable!("No mapping for group: {label}"),
        }
    }
}

fn all(input: &str) -> Vec<Result<Spanned<Word>, LexError>> {
    let mut lexer = Lexer::<Word>::new(input);
    let mut items = Vec::new();
    while let Some(item) = lexer.next() {
        items.push(item);
        assert!(items.len() <= input.len() + 1);
    }
    assert_eq!(lexer.next(), None);
    items
}

fn span(start: usize, token: Word, end: usize) -> Result<Spanned<Word>, LexError> {
    Ok(Spanned { start, token, end })
}

#[test]
fn tokens_lie_on_the_runs_between_white_space() {
    assert_eq!(
        all("one1+two2 - 1 +21 a20"),
        vec![
            span(0, Word::Var, 4),
            span(4, Word::Op, 5),
            span(5, Word::Var, 9),
            span(10, Word::Op, 11),
            span(12, Word::Num, 13),
            span(14, Word::Op, 15),
            span(15, Word::Num, 17),
            span(18, Word::Var, 21),
            span(21, Word::End, 21),
        ]
    );
}

#[test]
fn what_is_no_token_is_an_error_after_which_the_tokens_go_on() {
    assert_eq!(
        all("-2 + 4 + -2 + 2 / 2 !"),
        vec![
            span(0, Word::Op, 1),
            span(1, Word::Num, 2),
            span(3, Word::Op, 4),
            span(5, Word::Num, 6),
            span(7, Word::Op, 8),
            span(9, Word::Op, 10),
            span(10, Word::Num, 11),
            span(12, Word::Op, 13),
            span(14, Word::Num, 15),
            Err(LexError::UnrecognizedToken(16)),
            span(18, Word::Num, 19),
            Err(LexError::UnrecognizedToken(20)),
            span(21, Word::End, 21),
        ]
    );
}

#[test]
fn the_end_token_closes_an_empty_input() {
    assert_eq!(all(""), vec![span(0, Word::End, 0)]);
    assert_eq!(all(" \t\n"), vec![span(3, Word::End, 3)]);
}

#[test]
fn an_error_passes_one_character_of_any_width() {
    assert_eq!(
        all("a\u{e9}\u{10000}b"),
        vec![
            span(0, Word::Var, 1),
            Err(LexError::UnrecognizedToken(1)),
            Err(LexError::UnrecognizedToken(3)),
            span(7, Word::Var, 8),
            span(8, Word::End, 8),
        ]
    );
}

#[test]
fn offsets_never_go_back() {
    for input in ["a+b", "1 2 3", "!!x", "a /", "\u{e9} x \u{e9}", "x  "] {
        let mut last = 0;
        for item in all(input) {
            let (start, end) = match item {
                Ok(Spanned { start, end, .. }) => (start, end),
                Err(LexError::UnrecognizedToken(at)) => (at, at + 1),
            };
            assert!(last <= start, "{input}");
            assert!(start <= end, "{input}");
            last = end;
        }
    }
}

#[test]
fn the_longest_match_and_what_is_skipped() {
    assert_eq!(Word::next_match("abc1+2"), Some((4, Word::Var)));
    assert_eq!(Word::next_match("12ab"), Some((2, Word::Num)));
    assert_eq!(Word::next_match("-"), Some((1, Word::Op)));
    assert_eq!(Word::next_match("/"), None);
    assert_eq!(Word::next_match(""), None);
    assert_eq!(Word::skip_chars("  \t x "), 4);
    assert_eq!(Word::skip_chars("x "), 0);
    assert_eq!(Word::skip_chars(""), 0);
}

#[test]
fn the_steps_of_the_tokenizer_one_by_one() {
    let mut lexer = Lexer::<Word>::new("ab\u{e9}");
    assert_eq!(lexer.emit(Some((2, Word::Var))), span(0, Word::Var, 2));
    assert_eq!(lexer.emit(None), Err(LexError::UnrecognizedToken(2)));
    assert_eq!(lexer.emit(None), Err(LexError::UnrecognizedToken(4)));
    assert_eq!(lexer.next(), None);

    let mut lexer = Lexer::<Word>::new("ab");
    assert_eq!(lexer.finish(None), None);
    assert_eq!(lexer.next(), None);
    let mut lexer = Lexer::<Word>::new("ab");
    assert_eq!(lexer.finish(Some(Word::End)), Some(span(0, Word::End, 0)));
    assert_eq!(lexer.next(), None);
}

#[test]
fn lex_errors_say_where() {
    assert_eq!(
        LexError::UnrecognizedToken(16).to_text(),
        "Unrecognized token at 16"
    );
    assert_eq!(
        String::from(LexError::UnrecognizedToken(0)),
        "Unrecognized token at 0"
    );
}

#[derive(Debug, Clone, Copy, PartialEq, Eq)]
struct Stars;

static STARS_SKIP: OnceLock<NFA> = OnceLock::new();
static STARS_SET: OnceLock<NFASet> = OnceLock::new();

impl Token for Stars {
    fn eof() -> Option<Self> {
        None
    }

    fn get_skip_reg() -> &'static str {
        r"(\ )*"
    }

    fn skip_reg() -> &'static NFA {
        STARS_SKIP.get_or_init(|| NFA::try_from_language(Self::get_skip_reg()).unwrap())
    }

    fn get_token_set() -> &'static NFASet {
        STARS_SET.get_or_init(|| {
            NFASet::build(vec![("stars", NFA::try_from_language(r"\**").unwrap())]).unwrap()
        })
    }

    fn token_from_label(_label: &'static str) -> Self {
        Stars
    }
}

#[test]
fn an_empty_token_does_not_move_the_tokenizer() {
    let mut lexer = Lexer::<Stars>::new("**x");
    assert_eq!(
        lexer.next(),
        Some(Ok(Spanned {
            start: 0,
            token: Stars,
            end: 2
        }))
    );
    for _ in 0..3 {
        assert_eq!(
            lexer.next(),
            Some(Ok(Spanned {
                start: 2,
                token: Stars,
                end: 2
            }))
        );
    }
}
