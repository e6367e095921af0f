use std::sync::OnceLock;

use automata_rust::language::Language;
use automata_rust::lexer::{LexError, Lexer, Spanned, Token};
use automata_rust::nfa::{NFASet, NFA};

#[derive(Debug, Clone, Copy, PartialEq, Eq)]
pub enum ExprToken {
    Var,
    Op,
    Num,
}

static SKIP_REG: OnceLock<NFA> = OnceLock::new();
static TOKEN_SET: OnceLock<NFASet> = OnceLock::new();

impl Token for ExprToken {
    fn eof() -> Option<Self> {
        None
    }

    fn get_skip_reg() -> &'static str {
        r"(\n|\t|\ )*"
    }

    fn skip_reg() -> &'static NFA {
        SKIP_REG.get_or_init(|| NFA::try_from_language(Self::get_skip_reg()).unwrap())
    }

    fn get_token_set() -> &'static NFASet {
        TOKEN_SET.get_or_init(|| {
            NFASet::build(vec![
                (
                    "var",
                    NFA::try_from_language(r"(a-z|A-z)(a-z|A-Z|0-9)*").unwrap(),
                ),
                ("op", NFA::try_from_language(r"\+|\-").unwrap()),
                ("num", NFA::try_from_language(r"(0-9)+").unwrap()),
            ])
            .unwrap()
        })
    }

    fn token_from_label(label: &'static str) -> Self {
        match label {
            "var" => ExprToken::Var,
            "op" => ExprToken::Op,
            "num" => ExprToken::Num,
            _ => unreachable!("No mapping for group: {label}"),
        }
    }
}

fn collect(input: &str) -> Vec<Result<Spanned<ExprToken>, LexError>> {
    let mut lexer = Lexer::<ExprToken>::new(input);
    let mut all = Vec::new();
    while let Some(item) = lexer.next() {
        all.push(item);
    }
    all
}

#[test]
fn lexer() {
    let input = "one1+two2 - 1 +21 a20";

    let tokens = collect(input)
        .into_iter()
        .collect::<Result<Vec<_>, _>>()
        .unwrap()
        .into_iter()
        .map(|Spanned { token, .. }| token)
        .collect::<Vec<_>>();

    assert_eq!(
        tokens,
        vec![
            ExprToken::Var,
            ExprToken::Op,
            ExprToken::Var,
            ExprToken::Op,
            ExprToken::Num,
            ExprToken::Op,
            ExprToken::Num,
            ExprToken::Var
        ],
    );

    // Invalid '/'
    let input = "zx + yx - xx * (y / x)";
    let tokens = collect(input).into_iter().collect::<Result<Vec<_>, _>>();
    assert!(tokens.is_err());

    // Unrecognized '/' and '!'
    let input = "-2 + 4 + -2 + 2 / 2 !";
    let tokens = collect(input)
        .into_iter()
        .filter_map(|res| match res {
            Ok(_) => None,
            Err(err) => Some(err),
        })
        .collect::<Vec<_>>();

    assert_eq!(
        tokens,
        vec![
            LexError::UnrecognizedToken(16),
            LexError::UnrecognizedToken(20)
        ]
    );
}
