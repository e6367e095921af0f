use automata_rust::parse::{Lit, ParseError, Postfix, Token};

fn lit(c: char) -> Token {
    Token::Lit(Lit::Char(c))
}

fn postfix(source: &str) -> Vec<Token> {
    Postfix::parse(source).unwrap().tokens
}

#[test]
fn a_literal_accepts_its_character_only() {
    assert!(Lit::Char('a').accepts('a'));
    assert!(!Lit::Char('a').accepts('b'));
    assert!(!Lit::Char('a').accepts('A'));
}

#[test]
fn the_wildcard_accepts_every_character() {
    assert!(Lit::Any.accepts('a'));
    assert!(Lit::Any.accepts('\n'));
    assert!(Lit::Any.accepts('\u{10ffff}'));
}

#[test]
fn a_range_accepts_its_bounds_and_what_lies_between() {
    let range = Lit::Range('b', 'd');
    assert!(!range.accepts('a'));
    assert!(range.accepts('b'));
    assert!(range.accepts('c'));
    assert!(range.accepts('d'));
    assert!(!range.accepts('e'));
    assert!(!Lit::Range('d', 'b').accepts('c'));
}

#[test]
fn precedences_of_the_operators() {
    assert_eq!(Token::Range.infix_precedence(), Some((12, 11)));
    assert_eq!(Token::Concat.infix_precedence(), Some((4, 3)));
    assert_eq!(Token::Union.infix_precedence(), Some((2, 1)));
    assert_eq!(Token::KleeneS.infix_precedence(), None);
    assert_eq!(lit('a').infix_precedence(), None);
    assert_eq!(Token::KleeneS.postfix_precedence(), Some(10));
    assert_eq!(Token::KleeneP.postfix_precedence(), Some(10));
    assert_eq!(Token::Optional.postfix_precedence(), Some(9));
    assert_eq!(Token::Union.postfix_precedence(), None);
    assert_eq!(Token::Eof.postfix_precedence(), None);
}

#[test]
fn literals_and_tokens_as_they_are_written() {
    assert_eq!(Lit::Any.to_text(), ".");
    assert_eq!(Lit::Char('a').to_text(), "a");
    assert_eq!(Lit::Char('+').to_text(), "\\+");
    assert_eq!(Lit::Char('-').to_text(), "\\-");
    assert_eq!(Lit::Char('(').to_text(), "\\(");
    assert_eq!(Lit::Char('\n').to_text(), "\\n");
    assert_eq!(Lit::Char('|').to_text(), "|");
    assert_eq!(Lit::Char('\u{e9}').to_text(), "\\u{e9}");
    assert_eq!(Lit::Range('a', 'z').to_text(), "(a-z)");
    assert_eq!(Token::OParen.to_text(), "(");
    assert_eq!(Token::CParen.to_text(), ")");
    assert_eq!(Token::KleeneS.to_text(), "*");
    assert_eq!(Token::KleeneP.to_text(), "+");
    assert_eq!(Token::Concat.to_text(), "");
    assert_eq!(Token::Union.to_text(), "|");
    assert_eq!(Token::Optional.to_text(), "?");
    assert_eq!(Token::Range.to_text(), "-");
    assert_eq!(Token::Eof.to_text(), "$");
    assert_eq!(lit('x').to_text(), "x");
}

#[test]
fn adjacent_operands_are_concatenated() {
    assert_eq!(postfix("ab"), vec![lit('a'), lit('b'), Token::Concat]);
    assert_eq!(postfix("(A)B"), vec![lit('A'), lit('B'), Token::Concat]);
    assert_eq!(postfix("A(B)"), vec![lit('A'), lit('B'), Token::Concat]);
    assert_eq!(postfix("a*b"), vec![lit('a'), Token::KleeneS, lit('b'), Token::Concat]);
    assert_eq!(postfix("a$"), vec![lit('a'), Token::Eof, Token::Concat]);
    assert_eq!(postfix(" a \t b\n"), vec![lit('a'), lit('b'), Token::Concat]);
}

#[test]
fn operators_bind_by_their_precedence() {
    assert_eq!(
        postfix("a|bc"),
        vec![lit('a'), lit('b'), lit('c'), Token::Concat, Token::Union]
    );
    assert_eq!(
        postfix("ab|c"),
        vec![lit('a'), lit('b'), Token::Concat, lit('c'), Token::Union]
    );
    assert_eq!(
        postfix("ab*"),
        vec![lit('a'), lit('b'), Token::KleeneS, Token::Concat]
    );
    assert_eq!(
        postfix("a|b|c"),
        vec![lit('a'), lit('b'), lit('c'), Token::Union, Token::Union]
    );
    assert_eq!(
        postfix("abc"),
        vec![lit('a'), lit('b'), lit('c'), Token::Concat, Token::Concat]
    );
    assert_eq!(
        postfix("a?+"),
        vec![lit('a'), Token::Optional, Token::KleeneP]
    );
}

#[test]
fn a_range_is_one_literal() {
    assert_eq!(postfix("a-z"), vec![Token::Lit(Lit::Range('a', 'z'))]);
    assert_eq!(
        postfix("xa-z"),
        vec![lit('x'), Token::Lit(Lit::Range('a', 'z')), Token::Concat]
    );
    assert_eq!(
        postfix("a-zx"),
        vec![Token::Lit(Lit::Range('a', 'z')), lit('x'), Token::Concat]
    );
}

#[test]
fn escapes_stand_for_their_characters() {
    assert_eq!(postfix(r"\n"), vec![lit('\n')]);
    assert_eq!(postfix(r"\t"), vec![lit('\t')]);
    assert_eq!(postfix(r"\r"), vec![lit('\r')]);
    assert_eq!(postfix(r"\+"), vec![lit('+')]);
    assert_eq!(postfix(r"\\"), vec![lit('\\')]);
    assert_eq!(postfix(r"\ "), vec![lit(' ')]);
    assert_eq!(postfix(r"\a"), vec![lit('a')]);
    assert_eq!(postfix(r"\$"), vec![lit('$')]);
}

#[test]
fn empty_input_is_an_unexpected_end() {
    assert_eq!(Postfix::parse(""), Err(ParseError::UnexpectedEof));
    assert_eq!(Postfix::parse("  \n"), Err(ParseError::UnexpectedEof));
    assert_eq!(Postfix::parse("a|"), Err(ParseError::UnexpectedEof));
}

#[test]
fn a_lone_backslash_at_the_end_is_an_unexpected_end() {
    assert_eq!(Postfix::parse("\\"), Err(ParseError::UnexpectedEof));
    assert_eq!(Postfix::parse("a\\"), Err(ParseError::UnexpectedEof));
    assert_eq!(Postfix::parse("(a\\"), Err(ParseError::UnexpectedEof));
    assert_eq!(
        Postfix::parse(")\\"),
        Err(ParseError::InvalidPrefix(Token::CParen))
    );
}

#[test]
fn an_operator_cannot_start_an_expression() {
    assert_eq!(
        Postfix::parse("|B"),
        Err(ParseError::InvalidPrefix(Token::Union))
    );
    assert_eq!(
        Postfix::parse("A|?"),
        Err(ParseError::InvalidPrefix(Token::Optional))
    );
    assert_eq!(
        Postfix::parse("*"),
        Err(ParseError::InvalidPrefix(Token::KleeneS))
    );
    assert_eq!(
        Postfix::parse("()"),
        Err(ParseError::InvalidPrefix(Token::CParen))
    );
}

#[test]
fn an_open_parenthesis_must_be_closed() {
    assert_eq!(Postfix::parse("A|(B?"), Err(ParseError::Unmatched("(")));
    assert_eq!(Postfix::parse("(a"), Err(ParseError::Unmatched("(")));
}

#[test]
fn parsing_stops_at_what_is_left_over() {
    assert_eq!(
        Postfix::parse("A)|B?"),
        Err(ParseError::ParsingStopped(Token::CParen))
    );
    assert_eq!(
        Postfix::parse("(A))|(B)?"),
        Err(ParseError::ParsingStopped(Token::CParen))
    );
    assert_eq!(
        Postfix::parse("$a"),
        Err(ParseError::ParsingStopped(lit('a')))
    );
}

#[test]
fn a_range_needs_two_single_characters() {
    assert_eq!(
        Postfix::parse("a*-b"),
        Err(ParseError::InvalidRange {
            found: "(*-b)".to_string(),
            expected: "(c-c)"
        })
    );
    assert_eq!(
        Postfix::parse("a-(b|c)"),
        Err(ParseError::InvalidRange {
            found: "(a-|)".to_string(),
            expected: "(c-c)"
        })
    );
    assert_eq!(
        Postfix::parse("a-(b-c)"),
        Err(ParseError::InvalidRange {
            found: "(a-(b-c))".to_string(),
            expected: "(c-c)"
        })
    );
}

#[test]
fn parse_errors_say_what_went_wrong() {
    assert_eq!(ParseError::UnexpectedEof.to_text(), "Unexpected EOF");
    assert_eq!(ParseError::Unmatched("(").to_text(), "Unmatched '('");
    assert_eq!(
        ParseError::ParsingStopped(Token::CParen).to_text(),
        "Parsing stopped at token: `)`"
    );
    assert_eq!(
        ParseError::InvalidPrefix(Token::Union).to_text(),
        "Token '|' cannot appear as a prefix"
    );
    assert_eq!(
        ParseError::InvalidRange {
            found: "(*-b)".to_string(),
            expected: "(c-c)"
        }
        .to_text(),
        "Invalid group: Expected token '(c-c)' but found '(*-b)'"
    );
}

#[test]
fn the_infix_form_is_read_back_as_the_same_program() {
    for source in [
        "A",
        "A? B|C",
        "AB|((A|C) B|C?)",
        "A? | B* +",
        "(A-Z|a-z)(A-Za-z0-9)*",
        r"\n|\t+",
        r"\+|\-",
        "a$|b+$",
        "$",
        r"\\\(\)",
    ] {
        let program = Postfix::parse(source).unwrap();
        let text = program.to_infix_paren_form();
        assert_eq!(Postfix::parse(&text), Ok(program), "{source} as {text}");
    }
}

#[test]
fn a_parenthesized_range_in_infix_form() {
    assert_eq!(
        Postfix::parse("(A-Z|a-z)(A-Za-z0-9)*")
            .unwrap()
            .to_infix_paren_form(),
        "(((A-Z)|(a-z))(((A-Z)((a-z)(0-9)))*))"
    );
}

#[test]
fn what_is_not_written_faithfully_is_not_read_back() {
    // A bar that is meant as a literal is written as the operator.
    let bar = Postfix::parse(r"\|").unwrap();
    assert_eq!(bar.to_infix_paren_form(), "|");
    assert!(Postfix::parse(&bar.to_infix_paren_form()).is_err());
    // After the end-of-input sign no concatenation is read.
    let after_end = Postfix::parse("($)b").unwrap();
    assert_eq!(after_end.tokens, vec![Token::Eof, lit('b'), Token::Concat]);
    assert_eq!(after_end.to_infix_paren_form(), "($b)");
    assert!(Postfix::parse(&after_end.to_infix_paren_form()).is_err());
}

#[test]
fn the_empty_program_is_written_as_nothing() {
    assert_eq!(Postfix { tokens: vec![] }.to_infix_paren_form(), "");
}
