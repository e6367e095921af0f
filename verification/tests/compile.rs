use automata_rust::language::{CompileError, Language, LanguageError, Match};
use automata_rust::nfa::{State, Transition, NFA};
use automata_rust::parse::{Lit, ParseError, Postfix, Token};

fn lit(c: char) -> Token {
    Token::Lit(Lit::Char(c))
}

fn compile(tokens: Vec<Token>) -> Result<NFA, CompileError> {
    NFA::compile(Postfix { tokens })
}

fn shape(nfa: &NFA) -> Vec<String> {
    nfa.transitions
        .iter()
        .map(|t| match t {
            Transition::Label(l, e) => format!("{} -> {}", l.to_text(), e.0),
            Transition::Split(a, b) => format!(
                "{:?} | {:?}",
                a.map(|s| s.0),
                b.map(|s| s.0)
            ),
            Transition::Group(g, e) => format!("{} : {}", g.to_text(), e.0),
            Transition::Eof => "eof".to_string(),
            Transition::Accept => "accept".to_string(),
        })
        .collect()
}

#[test]
fn a_new_automaton_has_the_end_of_input_state_alone() {
    let nfa = NFA::new();
    assert_eq!(shape(&nfa), vec!["eof"]);
    assert_eq!(nfa.start, State(0));
    assert_eq!(nfa.accept, State(0));
    assert_eq!(nfa.eof, State(0));
    assert_eq!(nfa.is_match(""), vec![Match::NoGroup(0)]);
    assert_eq!(nfa.is_match("a"), vec![]);
}

#[test]
fn a_literal_is_one_state_that_leads_to_the_accepting_state() {
    let nfa = compile(vec![lit('a')]).unwrap();
    assert_eq!(shape(&nfa), vec!["eof", "accept", "a -> 1"]);
    assert_eq!(nfa.start, State(2));
    assert_eq!(nfa.accept, State(1));
    assert_eq!(nfa.eof, State(0));
}

#[test]
fn concatenation_patches_the_first_operand_to_the_second() {
    let nfa = compile(vec![lit('a'), lit('b'), Token::Concat]).unwrap();
    assert_eq!(shape(&nfa), vec!["eof", "accept", "a -> 3", "b -> 1"]);
    assert_eq!(nfa.start, State(2));
}

#[test]
fn union_forks_into_both_operands() {
    let nfa = compile(vec![lit('a'), lit('b'), Token::Union]).unwrap();
    assert_eq!(
        shape(&nfa),
        vec!["eof", "accept", "a -> 1", "b -> 1", "Some(2) | Some(3)"]
    );
    assert_eq!(nfa.start, State(4));
}

#[test]
fn the_optional_operand_can_be_passed_by() {
    let nfa = compile(vec![lit('a'), Token::Optional]).unwrap();
    assert_eq!(shape(&nfa), vec!["eof", "accept", "a -> 1", "Some(2) | Some(1)"]);
    assert_eq!(nfa.start, State(3));
}

#[test]
fn the_star_loops_back_to_its_fork() {
    let nfa = compile(vec![lit('a'), Token::KleeneS]).unwrap();
    assert_eq!(shape(&nfa), vec!["eof", "accept", "a -> 3", "Some(2) | Some(1)"]);
    assert_eq!(nfa.start, State(3));
}

#[test]
fn the_plus_starts_at_its_operand() {
    let nfa = compile(vec![lit('a'), Token::KleeneP]).unwrap();
    assert_eq!(shape(&nfa), vec!["eof", "accept", "a -> 3", "Some(2) | Some(1)"]);
    assert_eq!(nfa.start, State(2));
}

#[test]
fn the_end_of_input_token_forks_into_the_end_of_input_state_only() {
    let nfa = compile(vec![lit('a'), Token::Eof, Token::Concat]).unwrap();
    assert_eq!(shape(&nfa), vec!["eof", "accept", "a -> 3", "Some(0) | None"]);
    assert_eq!(nfa.start, State(2));
}

#[test]
fn the_empty_program_accepts_the_empty_prefix() {
    let nfa = compile(vec![]).unwrap();
    assert_eq!(shape(&nfa), vec!["eof", "accept"]);
    assert_eq!(nfa.start, nfa.accept);
    assert_eq!(nfa.is_match(""), vec![Match::NoGroup(0)]);
    assert_eq!(nfa.is_match("abc"), vec![Match::NoGroup(0)]);
}

#[test]
fn an_operator_without_its_operands_finds_the_stack_empty() {
    for token in [
        Token::KleeneS,
        Token::KleeneP,
        Token::Optional,
        Token::Union,
        Token::Concat,
    ] {
        assert_eq!(
            compile(vec![token]).err(),
            Some(CompileError::EmptyStack { token })
        );
    }
    for token in [Token::Union, Token::Concat] {
        assert_eq!(
            compile(vec![lit('a'), token]).err(),
            Some(CompileError::EmptyStack { token })
        );
    }
}

#[test]
fn more_than_one_expression_is_left_on_the_stack() {
    assert_eq!(
        compile(vec![lit('a'), lit('b')]).err(),
        Some(CompileError::NonUnaryStack { size: 2 })
    );
    assert_eq!(
        compile(vec![lit('a'), lit('b'), Token::Eof]).err(),
        Some(CompileError::NonUnaryStack { size: 3 })
    );
}

#[test]
fn parentheses_and_ranges_are_no_tokens_of_a_program() {
    assert_eq!(
        compile(vec![Token::OParen]).err(),
        Some(CompileError::UnexpectedOpenParen)
    );
    assert_eq!(
        compile(vec![lit('a'), Token::CParen]).err(),
        Some(CompileError::UnexpectedCloseParen)
    );
    assert_eq!(
        compile(vec![lit('a'), lit('b'), Token::Range]).err(),
        Some(CompileError::UnexpectedRange)
    );
}

#[test]
fn the_first_token_that_fails_gives_the_error() {
    assert_eq!(
        compile(vec![Token::KleeneS, Token::OParen]).err(),
        Some(CompileError::EmptyStack {
            token: Token::KleeneS
        })
    );
    assert_eq!(
        compile(vec![Token::CParen, Token::KleeneS]).err(),
        Some(CompileError::UnexpectedCloseParen)
    );
}

#[test]
fn compile_errors_say_what_went_wrong() {
    assert_eq!(
        CompileError::EmptyStack {
            token: Token::KleeneS
        }
        .to_text(),
        "Empty stack when handling token '*'\n"
    );
    assert_eq!(
        CompileError::NonUnaryStack { size: 12 }.to_text(),
        "Expected stack of size 1 but the stack had size 12\n"
    );
    assert_eq!(CompileError::UnexpectedOpenParen.to_text(), "Unexpected '('\n");
    assert_eq!(CompileError::UnexpectedCloseParen.to_text(), "Unexpected ')'\n");
    assert_eq!(CompileError::UnexpectedRange.to_text(), "Unexpected '-'\n");
    assert_eq!(
        CompileError::ParseError("bad".to_string()).to_text(),
        "Parse error: bad\n"
    );
    assert_eq!(
        LanguageError::CompileError(CompileError::UnexpectedRange).to_text(),
        "Unexpected '-'\n"
    );
    assert_eq!(
        LanguageError::ParseError(ParseError::UnexpectedEof).to_text(),
        "Unexpected EOF"
    );
}

#[test]
fn a_source_text_that_is_parsed_is_compiled() {
    assert!(NFA::try_from_language("a|b").is_ok());
    assert_eq!(
        NFA::try_from_language("a|").err(),
        Some(LanguageError::ParseError(ParseError::UnexpectedEof))
    );
    assert_eq!(
        NFA::try_from_language("").err(),
        Some(LanguageError::ParseError(ParseError::UnexpectedEof))
    );
    assert_eq!(
        LanguageError::from(CompileError::UnexpectedRange),
        LanguageError::CompileError(CompileError::UnexpectedRange)
    );
    assert_eq!(
        LanguageError::from(ParseError::UnexpectedEof),
        LanguageError::ParseError(ParseError::UnexpectedEof)
    );
}

#[test]
fn the_automaton_as_a_table() {
    let nfa = NFA::try_from_language("a|b$").unwrap();
    let expected = "\
Type    | State | Label | e1 | e2 | 
------------------------------------
Eof     | 0     |       |    |    | 
Accept: | 1     |       |    |    | 
        | 2     | a     | 1  |    | 
        | 3     | b     | 4  |    | 
        | 4     |       | 0  |    | 
Start:  | 5     |       | 2  | 3  | 
";
    assert_eq!(nfa.to_text(), expected);
}

#[test]
fn states_as_numbers() {
    assert_eq!(State(0).to_text(), "0");
    assert_eq!(State(305).to_text(), "305");
}
