use vstd::prelude::*;
use super::lit::Lit;
use super::token::Token;
use super::{tokenize, Lexer, ParseError, ParseFault, TokenStream};
use crate::text::push_text;

verus! {

/// Tokens in Reverse Polish Notation.
#[derive(Debug, PartialEq, Eq)]
pub struct Postfix {
    pub tokens: Vec<Token>,
}

/// What parsing an expression gives: its postfix program, and the position
/// of the first token after it.
pub struct Parsed {
    pub rpn: Seq<Token>,
    pub pos: nat,
}

/// How a range is shown whose bounds are not both single characters.
pub open spec fn range_text(left: Token, right: Token) -> Seq<char> {
    seq!['('] + left.text() + seq!['-'] + right.text() + seq![')']
}

/// The expression that starts at position `pos` and whose operators all bind
/// at least as tightly as `prec`.
pub open spec fn parse_expr_spec(ts: TokenStream, pos: nat, prec: usize) -> Result<Parsed, ParseFault>
    decreases ts.tokens.len() - pos, 1nat,
{
    if pos >= ts.tokens.len() {
        Err(ParseFault::UnexpectedEof)
    } else {
        match ts.tokens[pos as int] {
            Token::Lit(lit) => parse_loop_spec(ts, pos + 1, seq![Token::Lit(lit)], prec),
            Token::Eof => parse_loop_spec(ts, pos + 1, seq![Token::Eof], prec),
            Token::OParen => match parse_expr_spec(ts, pos + 1, 0) {
                Err(e) => Err(e),
                Ok(inner) => if pos < inner.pos < ts.tokens.len() {
                    if ts.tokens[inner.pos as int] is CParen {
                        parse_loop_spec(ts, inner.pos + 1, inner.rpn, prec)
                    } else {
                        Err(ParseFault::Unmatched(seq!['(']))
                    }
                } else if ts.complete {
                    Err(ParseFault::Unmatched(seq!['(']))
                } else {
                    Err(ParseFault::UnexpectedEof)
                },
            },
            token => Err(ParseFault::InvalidPrefix(token)),
        }
    }
}

/// The expression whose left part `lhs` has been read up to position `pos`,
/// continued by the operators that bind at least as tightly as `prec`.
pub open spec fn parse_loop_spec(ts: TokenStream, pos: nat, lhs: Seq<Token>, prec: usize) -> Result<
    Parsed,
    ParseFault,
>
    decreases ts.tokens.len() - pos, 0nat,
{
    if pos >= ts.tokens.len() {
        if ts.complete {
            Ok(Parsed { rpn: lhs, pos })
        } else {
            Err(ParseFault::UnexpectedEof)
        }
    } else {
        let token = ts.tokens[pos as int];
        if let Some(post_prec) = token.spec_postfix_precedence() {
            if post_prec < prec {
                Ok(Parsed { rpn: lhs, pos })
            } else {
                parse_loop_spec(ts, pos + 1, lhs.push(token), prec)
            }
        } else if let Some((left_prec, right_prec)) = token.spec_infix_precedence() {
            if left_prec < prec {
                Ok(Parsed { rpn: lhs, pos })
            } else {
                match parse_expr_spec(ts, pos + 1, right_prec) {
                    Err(e) => Err(e),
                    Ok(rhs) => if !(pos < rhs.pos <= ts.tokens.len()) {
                        Err(ParseFault::UnexpectedEof)
                    } else if token is Range {
                        match (lhs.last(), rhs.rpn.last()) {
                            (
                                Token::Lit(Lit::Char(lower)),
                                Token::Lit(Lit::Char(upper)),
                            ) => parse_loop_spec(
                                ts,
                                rhs.pos,
                                lhs.drop_last().push(Token::Lit(Lit::Range(lower, upper))),
                                prec,
                            ),
                            (left, right) => Err(
                                ParseFault::InvalidRange {
                                    found: range_text(left, right),
                                    expected: seq!['(', 'c', '-', 'c', ')'],
                                },
                            ),
                        }
                    } else {
                        parse_loop_spec(ts, rhs.pos, (lhs + rhs.rpn).push(token), prec)
                    },
                }
            }
        } else {
            Ok(Parsed { rpn: lhs, pos })
        }
    }
}

/// The postfix program of a token stream: one expression that takes all of
/// the tokens.
pub open spec fn parse_spec(ts: TokenStream) -> Result<Seq<Token>, ParseFault> {
    match parse_expr_spec(ts, 0, 0) {
        Err(e) => Err(e),
        Ok(p) => if p.pos < ts.tokens.len() {
            Err(ParseFault::ParsingStopped(ts.tokens[p.pos as int]))
        } else if ts.complete {
            Ok(p.rpn)
        } else {
            Err(ParseFault::UnexpectedEof)
        },
    }
}

/// What one token does to the stack of texts when a postfix program is
/// written in infix form: an operand is put on it as it is written, an
/// operator joins what it applies to between parentheses. `None` if the
/// stack holds too little.
pub open spec fn render_step(stack: Seq<Seq<char>>, token: Token) -> Option<Seq<Seq<char>>> {
    let n = stack.len() as int;
    match token {
        Token::Eof | Token::OParen | Token::CParen | Token::Lit(_) => Some(stack.push(token.text())),
        Token::Optional | Token::KleeneS | Token::KleeneP => if n < 1 {
            None
        } else {
            Some(stack.take(n - 1).push(seq!['('] + stack[n - 1] + token.text() + seq![')']))
        },
        Token::Range | Token::Concat | Token::Union => if n < 2 {
            None
        } else {
            Some(
                stack.take(n - 2).push(
                    seq!['('] + stack[n - 2] + token.text() + stack[n - 1] + seq![')'],
                ),
            )
        },
    }
}

/// The stack of texts after the first `k` tokens.
pub open spec fn render_stack(tokens: Seq<Token>, k: nat) -> Option<Seq<Seq<char>>>
    decreases k,
{
    if k == 0 {
        Some(Seq::empty())
    } else {
        match render_stack(tokens, (k - 1) as nat) {
            Some(stack) => render_step(stack, tokens[k - 1]),
            None => None,
        }
    }
}

/// The postfix program in infix form, every operator with its operands
/// between parentheses: the text on top of the stack at the end, or nothing
/// for the empty program.
pub open spec fn render_spec(tokens: Seq<Token>) -> Option<Seq<char>> {
    match render_stack(tokens, tokens.len()) {
        None => None,
        Some(stack) => Some(
            if stack.len() == 0 {
                Seq::empty()
            } else {
                stack.last()
            },
        ),
    }
}

/// How many operands lie on the stack after a token, if `d` lay there
/// before it: an operand adds one, an operator needs its operands and
/// leaves one in their place. `None` if the stack holds too little, or if
/// the token is one that no postfix program holds.
pub open spec fn depth_step(d: int, token: Token) -> Option<int> {
    match token {
        Token::Lit(_) | Token::Eof => Some(d + 1),
        Token::KleeneS | Token::KleeneP | Token::Optional => if d >= 1 {
            Some(d)
        } else {
            None
        },
        Token::Concat | Token::Union => if d >= 2 {
            Some(d - 1)
        } else {
            None
        },
        Token::OParen | Token::CParen | Token::Range => None,
    }
}

/// How many operands lie on the stack after the first `k` tokens.
pub open spec fn depth(tokens: Seq<Token>, k: nat) -> Option<int>
    decreases k,
{
    if k == 0 {
        Some(0)
    } else {
        match depth(tokens, (k - 1) as nat) {
            Some(d) => depth_step(d, tokens[k - 1]),
            None => None,
        }
    }
}

/// The tokens are the postfix program of exactly one expression.
pub open spec fn is_expression(tokens: Seq<Token>) -> bool {
    depth(tokens, tokens.len()) == Some(1int)
}

/// The depth is never negative.
pub proof fn lemma_depth_nonnegative(tokens: Seq<Token>, k: nat)
    ensures
        depth(tokens, k) matches Some(d) ==> d >= 0,
    decreases k,
{
    if k > 0 {
        lemma_depth_nonnegative(tokens, (k - 1) as nat);
    }
}

/// The depth after `k` tokens is that of any program with the same first
/// `k` tokens.
pub proof fn lemma_depth_prefix(a: Seq<Token>, b: Seq<Token>, k: nat)
    requires
        k <= a.len(),
        k <= b.len(),
        a.take(k as int) == b.take(k as int),
    ensures
        depth(a, k) == depth(b, k),
    decreases k,
{
    if k > 0 {
        assert(a.take(k - 1) == a.take(k as int).take(k - 1));
        assert(b.take(k - 1) == b.take(k as int).take(k - 1));
        lemma_depth_prefix(a, b, (k - 1) as nat);
        assert(a[k - 1] == a.take(k as int)[k - 1]);
        assert(b[k - 1] == b.take(k as int)[k - 1]);
    }
}

/// After a program that leaves `d` operands, the first `j` tokens of a
/// second program leave as many more as they leave by themselves.
pub proof fn lemma_depth_concat(a: Seq<Token>, b: Seq<Token>, j: nat)
    requires
        j <= b.len(),
        depth(a, a.len()) is Some,
        depth(b, j) is Some,
    ensures
        depth(a + b, a.len() + j) == Some(depth(a, a.len())->0 + depth(b, j)->0),
    decreases j,
{
    if j == 0 {
        assert((a + b).take(a.len() as int) == a.take(a.len() as int));
        lemma_depth_prefix(a + b, a, a.len());
    } else {
        lemma_depth_concat(a, b, (j - 1) as nat);
        lemma_depth_nonnegative(a, a.len());
        assert((a + b)[a.len() + j - 1] == b[j - 1]);
    }
}

/// One more token after a whole program.
pub proof fn lemma_depth_push(a: Seq<Token>, token: Token)
    requires
        depth(a, a.len()) is Some,
    ensures
        depth(a.push(token), a.len() + 1) == depth_step(depth(a, a.len())->0, token),
{
    let b = a.push(token);
    assert(b.take(a.len() as int) == a.take(a.len() as int));
    lemma_depth_prefix(b, a, a.len());
}

/// What the parser gives for the operators after an expression is an
/// expression again, and ends within the tokens.
pub proof fn lemma_parse_loop_expression(ts: TokenStream, pos: nat, lhs: Seq<Token>, prec: usize)
    requires
        is_expression(lhs),
        pos <= ts.tokens.len(),
        parse_loop_spec(ts, pos, lhs, prec) is Ok,
    ensures
        is_expression(parse_loop_spec(ts, pos, lhs, prec)->Ok_0.rpn),
        pos <= parse_loop_spec(ts, pos, lhs, prec)->Ok_0.pos <= ts.tokens.len(),
    decreases ts.tokens.len() - pos, 0nat,
{
    if pos < ts.tokens.len() {
        let token = ts.tokens[pos as int];
        if let Some(post_prec) = token.spec_postfix_precedence() {
            if post_prec >= prec {
                lemma_depth_push(lhs, token);
                lemma_parse_loop_expression(ts, pos + 1, lhs.push(token), prec);
            }
        } else if let Some((left_prec, right_prec)) = token.spec_infix_precedence() {
            if left_prec >= prec {
                lemma_parse_expr_expression(ts, pos + 1, right_prec);
                let rhs = parse_expr_spec(ts, pos + 1, right_prec)->Ok_0;
                if token is Range {
                    match (lhs.last(), rhs.rpn.last()) {
                        (Token::Lit(Lit::Char(lower)), Token::Lit(Lit::Char(upper))) => {
                            let cut = lhs.drop_last();
                            let next = cut.push(Token::Lit(Lit::Range(lower, upper)));
                            assert(cut.take(cut.len() as int) == lhs.take(cut.len() as int));
                            lemma_depth_prefix(cut, lhs, cut.len());
                            lemma_depth_push(cut, Token::Lit(Lit::Range(lower, upper)));
                            lemma_parse_loop_expression(ts, rhs.pos, next, prec);
                        },
                        _ => {},
                    }
                } else {
                    lemma_depth_concat(lhs, rhs.rpn, rhs.rpn.len());
                    lemma_depth_push(lhs + rhs.rpn, token);
                    lemma_parse_loop_expression(ts, rhs.pos, (lhs + rhs.rpn).push(token), prec);
                }
            }
        }
    }
}

/// What the parser gives for an expression is the postfix program of one
/// expression, and ends within the tokens.
pub proof fn lemma_parse_expr_expression(ts: TokenStream, pos: nat, prec: usize)
    requires
        parse_expr_spec(ts, pos, prec) is Ok,
    ensures
        is_expression(parse_expr_spec(ts, pos, prec)->Ok_0.rpn),
        pos < parse_expr_spec(ts, pos, prec)->Ok_0.pos <= ts.tokens.len(),
    decreases ts.tokens.len() - pos, 1nat,
{
    match ts.tokens[pos as int] {
        Token::Lit(lit) => {
            let lhs = seq![Token::Lit(lit)];
            lemma_depth_push(Seq::<Token>::empty(), Token::Lit(lit));
            assert(Seq::<Token>::empty().push(Token::Lit(lit)) == lhs);
            lemma_parse_loop_expression(ts, pos + 1, lhs, prec);
        },
        Token::Eof => {
            let lhs = seq![Token::Eof];
            lemma_depth_push(Seq::<Token>::empty(), Token::Eof);
            assert(Seq::<Token>::empty().push(Token::Eof) == lhs);
            lemma_parse_loop_expression(ts, pos + 1, lhs, prec);
        },
        Token::OParen => {
            lemma_parse_expr_expression(ts, pos + 1, 0);
            let inner = parse_expr_spec(ts, pos + 1, 0)->Ok_0;
            lemma_parse_loop_expression(ts, inner.pos + 1, inner.rpn, prec);
        },
        _ => {},
    }
}

/// A successful parse gives the postfix program of one expression.
pub proof fn lemma_parse_expression(ts: TokenStream)
    requires
        parse_spec(ts) is Ok,
    ensures
        is_expression(parse_spec(ts)->Ok_0),
{
    lemma_parse_expr_expression(ts, 0, 0);
}

/// As long as the operands suffice, the program can be written in infix
/// form, with one text for each operand on the stack.
pub proof fn lemma_depth_renders(tokens: Seq<Token>, k: nat)
    requires
        depth(tokens, k) is Some,
    ensures
        render_stack(tokens, k) matches Some(stack) && stack.len() == depth(tokens, k)->0,
    decreases k,
{
    if k > 0 {
        lemma_depth_renders(tokens, (k - 1) as nat);
    }
}

/// The texts of a stack of strings.
pub open spec fn texts(stack: Seq<String>) -> Seq<Seq<char>> {
    stack.map_values(|s: String| s@)
}

impl Postfix {
    /// The tokens are the postfix program of exactly one expression: each
    /// operator finds its operands, and no parenthesis or range is left.
    pub open spec fn wf(&self) -> bool {
        is_expression(self.tokens@)
    }

    /// Parse a list of token in postfix notation using [Pratt Parsing].
    ///
    /// [Pratt Parsing]: <https://en.wikipedia.org/wiki/Operator-precedence_parser#Pratt_parsing>
    fn parse_expr(input: &mut Lexer, prec: usize) -> (r: Result<Vec<Token>, ParseError>)
        requires
            old(input).wf(),
        ensures
            final(input).wf(),
            final(input).stream() == old(input).stream(),
            match parse_expr_spec(old(input).stream(), old(input).position(), prec) {
                Ok(p) => r matches Ok(v) && v@ == p.rpn && final(input).position() == p.pos,
                Err(e) => r matches Err(x) && x@ == e,
            },
            r matches Ok(v) ==> v@.len() >= 1 && old(input).position() < final(input).position(),
        decreases old(input).stream().tokens.len() - old(input).position(),
    {
        let ghost ts = input.stream();
        let ghost pos0 = input.position();
        let first = match input.next() {
            Ok(Some(token)) => token,
            Ok(None) => {
                return Err(ParseError::UnexpectedEof);
            },
            Err(e) => {
                return Err(e);
            },
        };
        let mut lhs: Vec<Token> = match first {
            Token::Lit(lit) => {
                let mut v = Vec::new();
                v.push(Token::Lit(lit));
                v
            },
            Token::Eof => {
                let mut v = Vec::new();
                v.push(Token::Eof);
                v
            },
            Token::OParen => {
                let lhs = match Self::parse_expr(input, 0) {
                    Ok(lhs) => lhs,
                    Err(e) => {
                        return Err(e);
                    },
                };
                match input.next() {
                    Ok(Some(Token::CParen)) => {},
                    Ok(_) => {
                        proof {
                            reveal_strlit("(");
                            assert("("@ =~= seq!['(']);
                        }
                        return Err(ParseError::Unmatched("("));
                    },
                    Err(e) => {
                        return Err(e);
                    },
                }
                lhs
            },
            token => {
                return Err(ParseError::InvalidPrefix(token));
            },
        };
        let ghost pos1 = input.position();
        let ghost lhs1 = lhs@;
        assert(parse_expr_spec(ts, pos0, prec) == parse_loop_spec(ts, pos1, lhs1, prec));

        loop
            invariant
                input.wf(),
                input.stream() == ts,
                ts == old(input).stream(),
                pos0 == old(input).position(),
                pos0 < input.position(),
                lhs@.len() >= 1,
                parse_expr_spec(ts, pos0, prec) == parse_loop_spec(ts, input.position(), lhs@, prec),
            ensures
                parse_expr_spec(ts, pos0, prec) == Ok::<Parsed, ParseFault>(
                    Parsed { rpn: lhs@, pos: input.position() },
                ),
            decreases ts.tokens.len() - input.position(),
        {
            let ghost pos = input.position();
            let token = match input.peek() {
                Ok(Some(token)) => token,
                Ok(None) => {
                    break ;
                },
                Err(e) => {
                    return Err(e);
                },
            };
            if let Some(post_prec) = token.postfix_precedence() {
                if post_prec < prec {
                    break ;
                }
                let _ = input.next();

                lhs.push(token);
            } else if let Some((left_prec, right_prec)) = token.infix_precedence() {
                if left_prec < prec {
                    break ;
                }
                let _ = input.next();

                let mut rhs = match Self::parse_expr(input, right_prec) {
                    Ok(rhs) => rhs,
                    Err(e) => {
                        return Err(e);
                    },
                };
                if let Token::Range = token {
                    let left = lhs.pop().unwrap();
                    let right = rhs.pop().unwrap();
                    match (left, right) {
                        (Token::Lit(Lit::Char(lower)), Token::Lit(Lit::Char(upper))) => {
                            lhs.push(Token::Lit(Lit::Range(lower, upper)));
                        },
                        _ => {
                            let mut found = String::new();
                            found.push('(');
                            left.push_to(&mut found);
                            found.push('-');
                            right.push_to(&mut found);
                            found.push(')');
                            proof {
                                reveal_strlit("(c-c)");
                                assert(found@ =~= range_text(left, right));
                                assert("(c-c)"@ =~= seq!['(', 'c', '-', 'c', ')']);
                            }
                            return Err(ParseError::InvalidRange { found, expected: "(c-c)" });
                        },
                    }
                } else {
                    lhs.append(&mut rhs);
                    lhs.push(token);
                }
            } else {
                break ;
            }
        }

        Ok(lhs)
    }

    /// Parses a regular expression into its postfix program.
    ///
    /// # Errors
    ///
    /// Fails if the text is no regular expression.
    pub fn parse(infix: &str) -> (r: Result<Self, ParseError>)
        ensures
            match parse_spec(tokenize(infix@)) {
                Ok(rpn) => r matches Ok(p) && p.tokens@ == rpn,
                Err(e) => r matches Err(x) && x@ == e,
            },
            r matches Ok(p) ==> p.wf(),
    {
        proof {
            if parse_spec(tokenize(infix@)) is Ok {
                lemma_parse_expression(tokenize(infix@));
            }
        }
        let mut input = Lexer::new(infix);
        let tokens = match Self::parse_expr(&mut input, 0) {
            Ok(tokens) => tokens,
            Err(e) => {
                return Err(e);
            },
        };
        match input.next() {
            Ok(Some(token)) => Err(ParseError::ParsingStopped(token)),
            Ok(None) => Ok(Postfix { tokens }),
            Err(e) => Err(e),
        }
    }

    /// The program in infix form, every operator with its operands between
    /// parentheses.
    pub fn to_infix_paren_form(&self) -> (r: String)
        requires
            render_spec(self.tokens@) is Some,
        ensures
            Some(r@) == render_spec(self.tokens@),
    {
        let mut stack: Vec<String> = Vec::new();
        let n = self.tokens.len();
        let mut i: usize = 0;
        assert(texts(stack@) =~= Seq::<Seq<char>>::empty());
        while i < n
            invariant
                i <= n,
                n == self.tokens@.len(),
                render_stack(self.tokens@, n as nat) is Some,
                render_stack(self.tokens@, i as nat) == Some(texts(stack@)),
            decreases n - i,
        {
            let token = self.tokens[i];
            let ghost before = texts(stack@);
            proof {
                lemma_render_prefix(self.tokens@, (i + 1) as nat, n as nat);
            }
            match token {
                Token::Eof | Token::OParen | Token::CParen | Token::Lit(_) => {
                    stack.push(token.to_text());
                },
                Token::Optional | Token::KleeneS | Token::KleeneP => {
                    let lhs = stack.pop().unwrap();
                    let mut s = String::new();
                    s.push('(');
                    push_text(&mut s, lhs.as_str());
                    token.push_to(&mut s);
                    s.push(')');
                    assert(s@ =~= seq!['('] + lhs@ + token.text() + seq![')']);
                    stack.push(s);
                },
                Token::Range | Token::Concat | Token::Union => {
                    let rhs = stack.pop().unwrap();
                    let lhs = stack.pop().unwrap();
                    let mut s = String::new();
                    s.push('(');
                    push_text(&mut s, lhs.as_str());
                    token.push_to(&mut s);
                    push_text(&mut s, rhs.as_str());
                    s.push(')');
                    assert(s@ =~= seq!['('] + lhs@ + token.text() + rhs@ + seq![')']);
                    stack.push(s);
                },
            }
            assert(texts(stack@) =~= render_step(before, token)->0);
            i = i + 1;
        }

        if let Some(s) = stack.pop() {
            s
        } else {
            String::new()
        }
    }
}

/// If the whole program can be written in infix form, so can each of its
/// beginnings.
pub proof fn lemma_render_prefix(tokens: Seq<Token>, k: nat, n: nat)
    requires
        k <= n,
        render_stack(tokens, n) is Some,
    ensures
        render_stack(tokens, k) is Some,
    decreases n - k,
{
    if k < n {
        lemma_render_prefix(tokens, k + 1, n);
    }
}

impl std::str::FromStr for Postfix {
    type Err = ParseError;

    fn from_str(infix: &str) -> (r: Result<Self, Self::Err>)
        ensures
            match parse_spec(tokenize(infix@)) {
                Ok(rpn) => r matches Ok(p) && p.tokens@ == rpn,
                Err(e) => r matches Err(x) && x@ == e,
            },
    {
        Postfix::parse(infix)
    }
}

} // verus!

verus! {

/// No token is the wildcard, which has no sign in the surface syntax.
pub open spec fn no_wildcard(tokens: Seq<Token>) -> bool {
    forall|i: int| 0 <= i < tokens.len() ==> (#[trigger] tokens[i]) != Token::Lit(Lit::Any)
}

/// The raw tokens of a text hold no wildcard.
pub proof fn lemma_scan_no_wildcard(source: Seq<char>, k: nat)
    requires
        k <= source.len(),
    ensures
        no_wildcard(super::scan(source, k).raw),
    decreases k,
{
    if k > 0 {
        lemma_scan_no_wildcard(source, (k - 1) as nat);
    }
}

/// Gluing adds no wildcard.
pub proof fn lemma_glued_no_wildcard(raw: Seq<Token>, k: nat)
    requires
        k <= raw.len(),
        no_wildcard(raw),
    ensures
        no_wildcard(super::glued(raw, k)),
    decreases k,
{
    if k > 0 {
        lemma_glued_no_wildcard(raw, (k - 1) as nat);
        assert(raw[k - 1] != Token::Lit(Lit::Any));
    }
}

/// The tokens of a text hold no wildcard.
pub proof fn lemma_tokenize_no_wildcard(source: Seq<char>)
    ensures
        no_wildcard(tokenize(source).tokens),
{
    let s = super::scan(source, source.len());
    lemma_scan_no_wildcard(source, source.len());
    lemma_glued_no_wildcard(s.raw, s.raw.len());
}

/// The operators after an expression bring no wildcard into it.
pub proof fn lemma_parse_loop_no_wildcard(ts: TokenStream, pos: nat, lhs: Seq<Token>, prec: usize)
    requires
        no_wildcard(ts.tokens),
        no_wildcard(lhs),
        lhs.len() > 0,
        pos <= ts.tokens.len(),
        parse_loop_spec(ts, pos, lhs, prec) is Ok,
    ensures
        no_wildcard(parse_loop_spec(ts, pos, lhs, prec)->Ok_0.rpn),
    decreases ts.tokens.len() - pos, 0nat,
{
    if pos < ts.tokens.len() {
        let token = ts.tokens[pos as int];
        if let Some(post_prec) = token.spec_postfix_precedence() {
            if post_prec >= prec {
                lemma_parse_loop_no_wildcard(ts, pos + 1, lhs.push(token), prec);
            }
        } else if let Some((left_prec, right_prec)) = token.spec_infix_precedence() {
            if left_prec >= prec {
                lemma_parse_expr_no_wildcard(ts, pos + 1, right_prec);
                let rhs = parse_expr_spec(ts, pos + 1, right_prec)->Ok_0;
                if token is Range {
                    match (lhs.last(), rhs.rpn.last()) {
                        (Token::Lit(Lit::Char(lower)), Token::Lit(Lit::Char(upper))) => {
                            let next = lhs.drop_last().push(Token::Lit(Lit::Range(lower, upper)));
                            assert forall|i: int| 0 <= i < next.len() implies (#[trigger] next[i])
                                != Token::Lit(Lit::Any) by {
                                if i < next.len() - 1 {
                                    assert(next[i] == lhs[i]);
                                }
                            }
                            lemma_parse_loop_no_wildcard(ts, rhs.pos, next, prec);
                        },
                        _ => {},
                    }
                } else {
                    let next = (lhs + rhs.rpn).push(token);
                    assert forall|i: int| 0 <= i < next.len() implies (#[trigger] next[i]) != Token::Lit(
                        Lit::Any,
                    ) by {
                        if i < lhs.len() {
                            assert(next[i] == lhs[i]);
                        } else if i < lhs.len() + rhs.rpn.len() {
                            assert(next[i] == rhs.rpn[i - lhs.len()]);
                        }
                    }
                    lemma_parse_loop_no_wildcard(ts, rhs.pos, next, prec);
                }
            }
        }
    }
}

/// An expression that is parsed from tokens without a wildcard holds none.
pub proof fn lemma_parse_expr_no_wildcard(ts: TokenStream, pos: nat, prec: usize)
    requires
        no_wildcard(ts.tokens),
        parse_expr_spec(ts, pos, prec) is Ok,
    ensures
        no_wildcard(parse_expr_spec(ts, pos, prec)->Ok_0.rpn),
    decreases ts.tokens.len() - pos, 1nat,
{
    let token = ts.tokens[pos as int];
    match token {
        Token::Lit(lit) => {
            let lhs = seq![Token::Lit(lit)];
            assert(lhs[0] == token);
            lemma_parse_loop_no_wildcard(ts, pos + 1, lhs, prec);
        },
        Token::Eof => {
            lemma_parse_loop_no_wildcard(ts, pos + 1, seq![Token::Eof], prec);
        },
        Token::OParen => {
            lemma_parse_expr_no_wildcard(ts, pos + 1, 0);
            lemma_parse_expr_expression(ts, pos + 1, 0);
            let inner = parse_expr_spec(ts, pos + 1, 0)->Ok_0;
            assert(inner.rpn.len() > 0) by {
                if inner.rpn.len() == 0 {
                    assert(inner.rpn =~= Seq::<Token>::empty());
                }
            }
            lemma_parse_loop_no_wildcard(ts, inner.pos + 1, inner.rpn, prec);
        },
        _ => {},
    }
}

/// The postfix program of a source text holds no wildcard.
pub proof fn lemma_parse_no_wildcard(source: Seq<char>)
    requires
        parse_spec(tokenize(source)) is Ok,
    ensures
        no_wildcard(parse_spec(tokenize(source))->Ok_0),
{
    lemma_tokenize_no_wildcard(source);
    lemma_parse_expr_no_wildcard(tokenize(source), 0, 0);
}

} // verus!
