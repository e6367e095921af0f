//! Writing a postfix program in infix form and reading it again gives the
//! program back.

use vstd::prelude::*;
use super::lit::Lit;
use super::postfix::{
    depth, is_expression, parse_expr_spec, parse_loop_spec, parse_spec, render_spec, render_stack,
    render_step, Parsed,
};
use super::token::Token;
use super::{ends_operand, glued, scan, starts_operand, tokenize, ParseFault, Scan, TokenStream};

verus! {

/// What is scanned of the first `k` characters depends on these alone.
pub proof fn lemma_scan_prefix(a: Seq<char>, b: Seq<char>, k: nat)
    requires
        k <= a.len(),
        k <= b.len(),
        a.take(k as int) == b.take(k as int),
    ensures
        scan(a, k) == scan(b, k),
    decreases k,
{
    if k > 0 {
        assert(a.take(k - 1) == a.take(k as int).take(k - 1));
        assert(b.take(k - 1) == b.take(k as int).take(k - 1));
        lemma_scan_prefix(a, b, (k - 1) as nat);
        assert(a[k - 1] == a.take(k as int)[k - 1]);
        assert(b[k - 1] == b.take(k as int)[k - 1]);
    }
}

/// After a text that leaves no backslash open, a second text is scanned as
/// it is by itself.
pub proof fn lemma_scan_concat(a: Seq<char>, b: Seq<char>, j: nat)
    requires
        j <= b.len(),
        !scan(a, a.len()).pending,
    ensures
        scan(a + b, a.len() + j) == (Scan {
            raw: scan(a, a.len()).raw + scan(b, j).raw,
            pending: scan(b, j).pending,
        }),
    decreases j,
{
    if j == 0 {
        assert((a + b).take(a.len() as int) == a.take(a.len() as int));
        lemma_scan_prefix(a + b, a, a.len());
        assert(scan(a, a.len()).raw + Seq::<Token>::empty() == scan(a, a.len()).raw);
    } else {
        lemma_scan_concat(a, b, (j - 1) as nat);
        assert((a + b)[a.len() + j - 1] == b[j - 1]);
        let prev = scan(b, (j - 1) as nat);
        let head = scan(a, a.len()).raw;
        assert forall|t: Token| head + prev.raw.push(t) == (head + prev.raw).push(t) by {
            assert(head + prev.raw.push(t) =~= (head + prev.raw).push(t));
        }
    }
}

/// The raw tokens of two texts one after the other, the first of which
/// leaves no backslash open.
pub proof fn lemma_scan_join(a: Seq<char>, b: Seq<char>)
    requires
        !scan(a, a.len()).pending,
    ensures
        scan(a + b, (a + b).len()) == (Scan {
            raw: scan(a, a.len()).raw + scan(b, b.len()).raw,
            pending: scan(b, b.len()).pending,
        }),
{
    lemma_scan_concat(a, b, b.len());
}

/// What is glued of the first `k` raw tokens depends on these alone.
pub proof fn lemma_glued_prefix(a: Seq<Token>, b: Seq<Token>, k: nat)
    requires
        k <= a.len(),
        k <= b.len(),
        a.take(k as int) == b.take(k as int),
    ensures
        glued(a, k) == glued(b, k),
    decreases k,
{
    if k > 0 {
        assert(a.take(k - 1) == a.take(k as int).take(k - 1));
        assert(b.take(k - 1) == b.take(k as int).take(k - 1));
        lemma_glued_prefix(a, b, (k - 1) as nat);
        assert(a[k - 1] == a.take(k as int)[k - 1]);
        assert(b[k - 1] == b.take(k as int)[k - 1]);
        if k >= 2 {
            assert(a[k - 2] == a.take(k as int)[k - 2]);
            assert(b[k - 2] == b.take(k as int)[k - 2]);
        }
    }
}

/// The concatenation that stands between two raw tokens, if one does.
pub open spec fn joint(left: Token, right: Token) -> Seq<Token> {
    if ends_operand(left) && starts_operand(right) {
        seq![Token::Concat]
    } else {
        Seq::empty()
    }
}

/// Two runs of raw tokens one after the other are glued as each by itself,
/// with the joint between them.
pub proof fn lemma_glued_concat(a: Seq<Token>, b: Seq<Token>, j: nat)
    requires
        a.len() >= 1,
        1 <= j <= b.len(),
    ensures
        glued(a + b, a.len() + j) == glued(a, a.len()) + joint(a.last(), b[0]) + glued(b, j),
    decreases j,
{
    let ab = a + b;
    if j == 1 {
        assert(ab.take(a.len() as int) == a.take(a.len() as int));
        lemma_glued_prefix(ab, a, a.len());
        assert(ab[a.len() as int] == b[0]);
        assert(ab[a.len() - 1] == a.last());
        assert(glued(b, 0) == Seq::<Token>::empty());
        assert(glued(b, 1) == Seq::<Token>::empty().push(b[0]));
        let g = glued(a, a.len());
        assert(g.push(Token::Concat).push(b[0]) =~= g + seq![Token::Concat] + Seq::<Token>::empty().push(
            b[0],
        ));
        assert(g.push(b[0]) =~= g + Seq::<Token>::empty() + Seq::<Token>::empty().push(b[0]));
    } else {
        lemma_glued_concat(a, b, (j - 1) as nat);
        assert(ab[a.len() + j - 1] == b[j - 1]);
        assert(ab[a.len() + j - 2] == b[j - 2]);
        let head = glued(a, a.len()) + joint(a.last(), b[0]);
        let prev = glued(b, (j - 1) as nat);
        assert((head + prev).push(Token::Concat).push(b[j - 1]) =~= head + prev.push(Token::Concat).push(
            b[j - 1],
        ));
        assert((head + prev).push(b[j - 1]) =~= head + prev.push(b[j - 1]));
    }
}

/// Two runs of raw tokens one after the other, glued.
pub proof fn lemma_glued_join(a: Seq<Token>, b: Seq<Token>)
    requires
        a.len() >= 1,
        b.len() >= 1,
    ensures
        glued(a + b, (a + b).len()) == glued(a, a.len()) + joint(a.last(), b[0]) + glued(
            b,
            b.len(),
        ),
{
    lemma_glued_concat(a, b, b.len());
}

/// A single raw token is glued as itself.
pub proof fn lemma_glued_single(t: Token)
    ensures
        glued(seq![t], 1) == seq![t],
{
    assert(glued(seq![t], 0) == Seq::<Token>::empty());
    assert(Seq::<Token>::empty().push(t) =~= seq![t]);
}

/// One operand on the stack while a postfix program is written in infix
/// form: its text, the raw tokens of the text, the tokens with their
/// concatenations, and the postfix program that the text stands for.
pub struct Piece {
    pub text: Seq<char>,
    pub raw: Seq<Token>,
    pub tokens: Seq<Token>,
    pub rpn: Seq<Token>,
}

/// The raw tokens that a literal is written with: a range is written as its
/// two bounds with the range sign between parentheses.
pub open spec fn lit_raw(l: Lit) -> Seq<Token> {
    match l {
        Lit::Range(lo, hi) => seq![
            Token::OParen,
            Token::Lit(Lit::Char(lo)),
            Token::Range,
            Token::Lit(Lit::Char(hi)),
            Token::CParen,
        ],
        _ => seq![Token::Lit(l)],
    }
}

/// The literal is read back from its text as it was written.
pub open spec fn reads_back(l: Lit) -> bool {
    scan(l.text(), l.text().len()) == (Scan { raw: lit_raw(l), pending: false })
}

/// What one token does to the stack of pieces.
pub open spec fn piece_step(stack: Seq<Piece>, token: Token) -> Seq<Piece> {
    let n = stack.len() as int;
    match token {
        Token::Lit(l) => stack.push(
            Piece { text: l.text(), raw: lit_raw(l), tokens: lit_raw(l), rpn: seq![token] },
        ),
        Token::Eof => stack.push(
            Piece { text: seq!['$'], raw: seq![token], tokens: seq![token], rpn: seq![token] },
        ),
        Token::Optional | Token::KleeneS | Token::KleeneP => {
            let x = stack[n - 1];
            stack.take(n - 1).push(
                Piece {
                    text: seq!['('] + x.text + token.text() + seq![')'],
                    raw: seq![Token::OParen] + x.raw + seq![token] + seq![Token::CParen],
                    tokens: seq![Token::OParen] + x.tokens + seq![token] + seq![Token::CParen],
                    rpn: x.rpn.push(token),
                },
            )
        },
        Token::Union => {
            let x = stack[n - 2];
            let y = stack[n - 1];
            stack.take(n - 2).push(
                Piece {
                    text: seq!['('] + x.text + token.text() + y.text + seq![')'],
                    raw: seq![Token::OParen] + x.raw + seq![token] + y.raw + seq![Token::CParen],
                    tokens: seq![Token::OParen] + x.tokens + seq![token] + y.tokens + seq![
                        Token::CParen,
                    ],
                    rpn: (x.rpn + y.rpn).push(token),
                },
            )
        },
        Token::Concat => {
            let x = stack[n - 2];
            let y = stack[n - 1];
            stack.take(n - 2).push(
                Piece {
                    text: seq!['('] + x.text + token.text() + y.text + seq![')'],
                    raw: seq![Token::OParen] + x.raw + y.raw + seq![Token::CParen],
                    tokens: seq![Token::OParen] + x.tokens + seq![token] + y.tokens + seq![
                        Token::CParen,
                    ],
                    rpn: (x.rpn + y.rpn).push(token),
                },
            )
        },
        _ => stack,
    }
}

/// The stack of pieces after the first `k` tokens.
pub open spec fn pieces(rpn: Seq<Token>, k: nat) -> Seq<Piece>
    decreases k,
{
    if k == 0 {
        Seq::empty()
    } else {
        piece_step(pieces(rpn, (k - 1) as nat), rpn[k - 1])
    }
}

/// The tokens `x` lie in the stream from position `pos` on.
pub open spec fn lies_at(ts: TokenStream, pos: nat, prec: usize, x: Seq<Token>) -> bool {
    pos + x.len() <= ts.tokens.len() && ts.tokens.subrange(pos as int, pos as int + x.len()) == x
}

/// Wherever the tokens `x` lie in a stream, an expression that is parsed
/// from their first token on takes exactly them for its first operand,
/// which is the postfix program `s`.
pub open spec fn parses_as(x: Seq<Token>, s: Seq<Token>) -> bool {
    forall|ts: TokenStream, pos: nat, prec: usize| #[trigger]
        lies_at(ts, pos, prec, x) ==> parse_expr_spec(ts, pos, prec) == parse_loop_spec(
            ts,
            pos + x.len(),
            s,
            prec,
        )
}

/// What holds of every piece: its text is scanned into its raw tokens,
/// which are glued into its tokens, which are parsed into its program. It
/// starts as an operand does, and it ends as one does unless it is the
/// end-of-input sign alone.
pub open spec fn piece_ok(p: Piece) -> bool {
    &&& scan(p.text, p.text.len()) == (Scan { raw: p.raw, pending: false })
    &&& glued(p.raw, p.raw.len()) == p.tokens
    &&& parses_as(p.tokens, p.rpn)
    &&& p.raw.len() >= 1
    &&& starts_operand(p.raw[0])
    &&& !(p.raw.last() is Concat)
    &&& ends_operand(p.raw.last()) || p.text == seq!['$']
}

/// A single character that is no white space and no backslash is scanned
/// into its token.
pub proof fn lemma_scan_char(c: char)
    requires
        !crate::text::is_whitespace(c),
        c != '\\',
    ensures
        scan(seq![c], 1) == (Scan { raw: seq![super::plain_token(c)], pending: false }),
{
    assert(scan(seq![c], 0) == Scan { raw: Seq::empty(), pending: false });
    assert(Seq::<Token>::empty().push(super::plain_token(c)) =~= seq![super::plain_token(c)]);
}

/// The end-of-input sign is a piece.
pub proof fn lemma_piece_eof()
    ensures
        piece_ok(
            Piece {
                text: seq!['$'],
                raw: seq![Token::Eof],
                tokens: seq![Token::Eof],
                rpn: seq![Token::Eof],
            },
        ),
{
    lemma_scan_char('$');
    lemma_glued_single(Token::Eof);
    let x = seq![Token::Eof];
    assert forall|ts: TokenStream, pos: nat, prec: usize| #[trigger]
        lies_at(ts, pos, prec, x) implies parse_expr_spec(ts, pos, prec) == parse_loop_spec(
        ts,
        pos + x.len(),
        x,
        prec,
    ) by {
        assert(ts.tokens[pos as int] == ts.tokens.subrange(pos as int, pos as int + 1)[0]);
    }
}

/// A literal that is read back from its text is a piece.
pub proof fn lemma_piece_lit(l: Lit)
    requires
        reads_back(l),
    ensures
        piece_ok(
            Piece { text: l.text(), raw: lit_raw(l), tokens: lit_raw(l), rpn: seq![Token::Lit(l)] },
        ),
{
    let x = lit_raw(l);
    let s = seq![Token::Lit(l)];
    match l {
        Lit::Range(lo, hi) => {
            reveal_with_fuel(glued, 6);
            assert(glued(x, 5) =~= x);
            assert forall|ts: TokenStream, pos: nat, prec: usize| #[trigger]
                lies_at(ts, pos, prec, x) implies parse_expr_spec(ts, pos, prec) == parse_loop_spec(
                ts,
                pos + x.len(),
                s,
                prec,
            ) by {
                let sub = ts.tokens.subrange(pos as int, pos as int + 5);
                assert(ts.tokens[pos as int] == sub[0]);
                assert(ts.tokens[pos as int + 1] == sub[1]);
                assert(ts.tokens[pos as int + 2] == sub[2]);
                assert(ts.tokens[pos as int + 3] == sub[3]);
                assert(ts.tokens[pos as int + 4] == sub[4]);
                let low = seq![Token::Lit(Lit::Char(lo))];
                let high = seq![Token::Lit(Lit::Char(hi))];
                assert(parse_loop_spec(ts, pos + 4, high, 11) == Ok::<Parsed, ParseFault>(
                    Parsed { rpn: high, pos: pos + 4 },
                ));
                assert(parse_expr_spec(ts, pos + 3, 11) == parse_loop_spec(ts, pos + 4, high, 11));
                assert(low.drop_last().push(Token::Lit(Lit::Range(lo, hi))) =~= s);
                assert(parse_loop_spec(ts, pos + 4, s, 0) == Ok::<Parsed, ParseFault>(
                    Parsed { rpn: s, pos: pos + 4 },
                ));
                assert(parse_loop_spec(ts, pos + 2, low, 0) == parse_loop_spec(ts, pos + 4, s, 0));
                assert(parse_expr_spec(ts, pos + 1, 0) == parse_loop_spec(ts, pos + 2, low, 0));
            }
        },
        _ => {
            lemma_glued_single(Token::Lit(l));
            assert forall|ts: TokenStream, pos: nat, prec: usize| #[trigger]
                lies_at(ts, pos, prec, x) implies parse_expr_spec(ts, pos, prec) == parse_loop_spec(
                ts,
                pos + x.len(),
                s,
                prec,
            ) by {
                assert(ts.tokens[pos as int] == ts.tokens.subrange(pos as int, pos as int + 1)[0]);
            }
        },
    }
}

/// Where a run of tokens lies, its two parts lie one after the other.
pub proof fn lemma_lies_split(ts: TokenStream, pos: nat, a: Seq<Token>, b: Seq<Token>)
    requires
        lies_at(ts, pos, 0, a + b),
    ensures
        lies_at(ts, pos, 0, a),
        lies_at(ts, pos + a.len(), 0, b),
{
    let p = pos as int;
    let whole = ts.tokens.subrange(p, p + (a + b).len());
    assert(ts.tokens.subrange(p, p + a.len()) =~= whole.subrange(0, a.len() as int));
    assert(whole.subrange(0, a.len() as int) =~= a);
    assert(ts.tokens.subrange(p + a.len(), p + a.len() + b.len()) =~= whole.subrange(
        a.len() as int,
        (a + b).len() as int,
    ));
    assert(whole.subrange(a.len() as int, (a + b).len() as int) =~= b);
}

/// The token at the place where a single token lies.
pub proof fn lemma_lies_single(ts: TokenStream, pos: nat, t: Token)
    requires
        lies_at(ts, pos, 0, seq![t]),
    ensures
        pos < ts.tokens.len(),
        ts.tokens[pos as int] == t,
{
    assert(ts.tokens[pos as int] == ts.tokens.subrange(pos as int, pos as int + 1)[0]);
}

/// The text of an operator sign is scanned into the operator.
proof fn lemma_scan_sign(token: Token)
    requires
        token is Optional || token is KleeneS || token is KleeneP || token is Union,
    ensures
        scan(token.text(), token.text().len()) == (Scan { raw: seq![token], pending: false }),
{
    match token {
        Token::Optional => lemma_scan_char('?'),
        Token::KleeneS => lemma_scan_char('*'),
        Token::KleeneP => lemma_scan_char('+'),
        _ => lemma_scan_char('|'),
    }
}

/// An operand with a postfix operator, between parentheses, is a piece.
pub proof fn lemma_piece_unary(x: Piece, token: Token)
    requires
        piece_ok(x),
        token is Optional || token is KleeneS || token is KleeneP,
    ensures
        piece_ok(
            Piece {
                text: seq!['('] + x.text + token.text() + seq![')'],
                raw: seq![Token::OParen] + x.raw + seq![token] + seq![Token::CParen],
                tokens: seq![Token::OParen] + x.tokens + seq![token] + seq![Token::CParen],
                rpn: x.rpn.push(token),
            },
        ),
{
    let open = seq![Token::OParen];
    let close = seq![Token::CParen];
    let sign = seq![token];
    let text = seq!['('] + x.text + token.text() + seq![')'];
    let raw = open + x.raw + sign + close;
    let tokens = open + x.tokens + sign + close;
    let rpn = x.rpn.push(token);
    // The text is scanned into the raw tokens.
    lemma_scan_char('(');
    lemma_scan_char(')');
    lemma_scan_sign(token);
    lemma_scan_join(seq!['('], x.text);
    lemma_scan_join(seq!['('] + x.text, token.text());
    lemma_scan_join(seq!['('] + x.text + token.text(), seq![')']);
    // The raw tokens are glued into the tokens.
    lemma_glued_single(Token::OParen);
    lemma_glued_single(Token::CParen);
    lemma_glued_single(token);
    lemma_glued_join(open, x.raw);
    assert((open + x.raw).last() == x.raw.last());
    lemma_glued_join(open + x.raw, sign);
    assert((open + x.raw + sign).last() == token);
    lemma_glued_join(open + x.raw + sign, close);
    assert(glued(raw, raw.len()) =~= tokens);
    // The tokens are parsed into the program.
    assert forall|ts: TokenStream, pos: nat, prec: usize| #[trigger]
        lies_at(ts, pos, prec, tokens) implies parse_expr_spec(ts, pos, prec) == parse_loop_spec(
        ts,
        pos + tokens.len(),
        rpn,
        prec,
    ) by {
        assert(lies_at(ts, pos, 0, tokens));
        lemma_lies_split(ts, pos, open + x.tokens + sign, close);
        lemma_lies_split(ts, pos, open + x.tokens, sign);
        lemma_lies_split(ts, pos, open, x.tokens);
        let pa: nat = pos + 1;
        let pb: nat = pa + x.tokens.len();
        let pc: nat = pb + 1;
        lemma_lies_single(ts, pos, Token::OParen);
        lemma_lies_single(ts, pb, token);
        lemma_lies_single(ts, pc, Token::CParen);
        assert(lies_at(ts, pa, 0, x.tokens));
        assert(parse_expr_spec(ts, pa, 0) == parse_loop_spec(ts, pb, x.rpn, 0));
        assert(parse_loop_spec(ts, pc, rpn, 0) == Ok::<Parsed, ParseFault>(Parsed { rpn, pos: pc }));
        assert(parse_loop_spec(ts, pb, x.rpn, 0) == parse_loop_spec(ts, pc, rpn, 0));
    }
    assert(raw[0] == Token::OParen);
    assert(raw.last() == Token::CParen);
}

/// Two operands with an infix operator, between parentheses, are a piece.
/// Between two operands that are concatenated nothing is written; the
/// first of them must not be the end-of-input sign alone.
pub proof fn lemma_piece_binary(x: Piece, y: Piece, token: Token)
    requires
        piece_ok(x),
        piece_ok(y),
        token is Union || token is Concat,
        token is Concat ==> x.text != seq!['$'],
    ensures
        piece_ok(
            Piece {
                text: seq!['('] + x.text + token.text() + y.text + seq![')'],
                raw: if token is Concat {
                    seq![Token::OParen] + x.raw + y.raw + seq![Token::CParen]
                } else {
                    seq![Token::OParen] + x.raw + seq![token] + y.raw + seq![Token::CParen]
                },
                tokens: seq![Token::OParen] + x.tokens + seq![token] + y.tokens + seq![
                    Token::CParen,
                ],
                rpn: (x.rpn + y.rpn).push(token),
            },
        ),
{
    let open = seq![Token::OParen];
    let close = seq![Token::CParen];
    let sign = seq![token];
    let text = seq!['('] + x.text + token.text() + y.text + seq![')'];
    let raw = if token is Concat {
        open + x.raw + y.raw + close
    } else {
        open + x.raw + sign + y.raw + close
    };
    let tokens = open + x.tokens + sign + y.tokens + close;
    let rpn = (x.rpn + y.rpn).push(token);
    lemma_scan_char('(');
    lemma_scan_char(')');
    lemma_glued_single(Token::OParen);
    lemma_glued_single(Token::CParen);
    lemma_glued_single(token);
    lemma_scan_join(seq!['('], x.text);
    lemma_glued_join(open, x.raw);
    assert((open + x.raw).last() == x.raw.last());
    if token is Concat {
        assert(token.text() =~= Seq::<char>::empty());
        assert(seq!['('] + x.text + token.text() =~= seq!['('] + x.text);
        lemma_scan_join(seq!['('] + x.text, y.text);
        lemma_scan_join(seq!['('] + x.text + y.text, seq![')']);
        lemma_glued_join(open + x.raw, y.raw);
        assert((open + x.raw + y.raw).last() == y.raw.last());
        lemma_glued_join(open + x.raw + y.raw, close);
        assert(glued(raw, raw.len()) =~= tokens);
    } else {
        lemma_scan_sign(token);
        lemma_scan_join(seq!['('] + x.text, token.text());
        lemma_scan_join(seq!['('] + x.text + token.text(), y.text);
        lemma_scan_join(seq!['('] + x.text + token.text() + y.text, seq![')']);
        lemma_glued_join(open + x.raw, sign);
        assert((open + x.raw + sign).last() == token);
        lemma_glued_join(open + x.raw + sign, y.raw);
        assert((open + x.raw + sign + y.raw).last() == y.raw.last());
        lemma_glued_join(open + x.raw + sign + y.raw, close);
        assert(glued(raw, raw.len()) =~= tokens);
    }
    assert forall|ts: TokenStream, pos: nat, prec: usize| #[trigger]
        lies_at(ts, pos, prec, tokens) implies parse_expr_spec(ts, pos, prec) == parse_loop_spec(
        ts,
        pos + tokens.len(),
        rpn,
        prec,
    ) by {
        assert(lies_at(ts, pos, 0, tokens));
        lemma_lies_split(ts, pos, open + x.tokens + sign + y.tokens, close);
        lemma_lies_split(ts, pos, open + x.tokens + sign, y.tokens);
        lemma_lies_split(ts, pos, open + x.tokens, sign);
        lemma_lies_split(ts, pos, open, x.tokens);
        let pa: nat = pos + 1;
        let pb: nat = pa + x.tokens.len();
        let pc: nat = pb + 1;
        let pd: nat = pc + y.tokens.len();
        lemma_lies_single(ts, pos, Token::OParen);
        lemma_lies_single(ts, pb, token);
        lemma_lies_single(ts, pd, Token::CParen);
        let pair = token.spec_infix_precedence()->0;
        let right = pair.1;
        assert(lies_at(ts, pa, 0, x.tokens));
        assert(lies_at(ts, pc, right, y.tokens));
        assert(parse_expr_spec(ts, pa, 0) == parse_loop_spec(ts, pb, x.rpn, 0));
        assert(parse_expr_spec(ts, pc, right) == parse_loop_spec(ts, pd, y.rpn, right));
        assert(parse_loop_spec(ts, pd, y.rpn, right) == Ok::<Parsed, ParseFault>(
            Parsed { rpn: y.rpn, pos: pd },
        ));
        assert(parse_loop_spec(ts, pd, rpn, 0) == Ok::<Parsed, ParseFault>(Parsed { rpn, pos: pd }));
        assert(parse_loop_spec(ts, pb, x.rpn, 0) == parse_loop_spec(ts, pd, rpn, 0));
    }
    assert(raw[0] == Token::OParen);
    assert(raw.last() == Token::CParen);
}

/// The texts of a stack of pieces.
pub open spec fn piece_texts(stack: Seq<Piece>) -> Seq<Seq<char>> {
    stack.map_values(|p: Piece| p.text)
}

/// The programs of a stack of pieces, one after the other.
pub open spec fn flat(stack: Seq<Piece>) -> Seq<Token>
    decreases stack.len(),
{
    if stack.len() == 0 {
        Seq::empty()
    } else {
        flat(stack.drop_last()) + stack.last().rpn
    }
}

/// The token at position `k` of the program is written so that it is read
/// back: a literal is read back from its text, and a concatenation does not
/// follow the end-of-input sign alone.
pub open spec fn faithful_at(rpn: Seq<Token>, k: int) -> bool {
    match rpn[k] {
        Token::Lit(l) => reads_back(l),
        Token::Concat => match render_stack(rpn, k as nat) {
            Some(stack) => stack.len() >= 2 ==> stack[stack.len() - 2] != seq!['$'],
            None => true,
        },
        _ => true,
    }
}

/// Every token of the program is written so that it is read back.
pub open spec fn faithful(rpn: Seq<Token>) -> bool {
    forall|k: int| 0 <= k < rpn.len() ==> #[trigger] faithful_at(rpn, k)
}

/// The programs of a stack with one more piece.
proof fn lemma_flat_push(stack: Seq<Piece>, p: Piece)
    ensures
        flat(stack.push(p)) == flat(stack) + p.rpn,
{
    assert(stack.push(p).drop_last() =~= stack);
}

/// The stack of pieces after the first `k` tokens of a program that is
/// written faithfully: as many pieces as operands, each of them a piece
/// that is read back, with the texts that the program is written with.
pub proof fn lemma_pieces(rpn: Seq<Token>, k: nat)
    requires
        k <= rpn.len(),
        depth(rpn, k) is Some,
        forall|i: int| 0 <= i < k ==> #[trigger] faithful_at(rpn, i),
    ensures
        pieces(rpn, k).len() == depth(rpn, k)->0,
        forall|i: int| 0 <= i < pieces(rpn, k).len() ==> piece_ok(#[trigger] pieces(rpn, k)[i]),
        flat(pieces(rpn, k)) == rpn.take(k as int),
        render_stack(rpn, k) == Some(piece_texts(pieces(rpn, k))),
    decreases k,
{
    if k == 0 {
        assert(rpn.take(0) =~= Seq::<Token>::empty());
        assert(piece_texts(Seq::<Piece>::empty()) =~= Seq::<Seq<char>>::empty());
    } else {
        lemma_pieces(rpn, (k - 1) as nat);
        let before = pieces(rpn, (k - 1) as nat);
        let texts = piece_texts(before);
        let token = rpn[k - 1];
        let after = piece_step(before, token);
        let n = before.len() as int;
        assert(after == pieces(rpn, k));
        assert(faithful_at(rpn, k - 1));
        assert(rpn.take(k as int) =~= rpn.take(k - 1).push(token));
        match token {
            Token::Lit(l) => {
                lemma_piece_lit(l);
                lemma_flat_push(before, after.last());
                assert(rpn.take(k - 1) + seq![token] =~= rpn.take(k - 1).push(token));
                assert(piece_texts(after) =~= texts.push(token.text()));
            },
            Token::Eof => {
                lemma_piece_eof();
                lemma_flat_push(before, after.last());
                assert(rpn.take(k - 1) + seq![token] =~= rpn.take(k - 1).push(token));
                assert(piece_texts(after) =~= texts.push(token.text()));
            },
            Token::Optional | Token::KleeneS | Token::KleeneP => {
                let x = before[n - 1];
                lemma_piece_unary(x, token);
                let rest = before.take(n - 1);
                assert(before.drop_last() =~= rest);
                assert(flat(before) == flat(rest) + x.rpn);
                lemma_flat_push(rest, after.last());
                assert(flat(after) == flat(rest) + x.rpn.push(token));
                assert(flat(rest) + x.rpn.push(token) =~= (flat(rest) + x.rpn).push(token));
                assert(piece_texts(after) =~= render_step(texts, token)->0);
                assert forall|i: int| 0 <= i < after.len() implies piece_ok(#[trigger] after[i]) by {
                    if i < n - 1 {
                        assert(after[i] == before[i]);
                    }
                }
            },
            Token::Union | Token::Concat => {
                let x = before[n - 2];
                let y = before[n - 1];
                assert(texts[n - 2] == x.text);
                lemma_piece_binary(x, y, token);
                let rest = before.take(n - 2);
                assert(before.drop_last().drop_last() =~= rest);
                assert(before.drop_last().last() == x);
                assert(flat(before.drop_last()) == flat(rest) + x.rpn);
                assert(flat(before) == flat(rest) + x.rpn + y.rpn);
                lemma_flat_push(rest, after.last());
                assert(flat(after) == flat(rest) + (x.rpn + y.rpn).push(token));
                assert(flat(rest) + (x.rpn + y.rpn).push(token) =~= (flat(rest) + x.rpn + y.rpn).push(
                    token,
                ));
                assert(piece_texts(after) =~= render_step(texts, token)->0);
                assert forall|i: int| 0 <= i < after.len() implies piece_ok(#[trigger] after[i]) by {
                    if i < n - 2 {
                        assert(after[i] == before[i]);
                    }
                }
            },
            _ => {},
        }
    }
}

/// Round trip: a postfix program of one expression that is written
/// faithfully is read back from its infix form as it was.
pub proof fn lemma_round_trip(rpn: Seq<Token>)
    requires
        is_expression(rpn),
        faithful(rpn),
    ensures
        render_spec(rpn) matches Some(text) && parse_spec(tokenize(text)) == Ok::<
            Seq<Token>,
            ParseFault,
        >(rpn),
{
    lemma_pieces(rpn, rpn.len());
    let stack = pieces(rpn, rpn.len());
    let p = stack[0];
    assert(piece_ok(p));
    assert(stack.drop_last() =~= Seq::<Piece>::empty());
    assert(flat(stack.drop_last()) == Seq::<Token>::empty());
    assert(rpn.take(rpn.len() as int) == rpn);
    assert(Seq::<Token>::empty() + p.rpn =~= p.rpn);
    assert(p.rpn == rpn);
    assert(piece_texts(stack)[0] == p.text);
    let ts = tokenize(p.text);
    assert(ts == TokenStream { tokens: p.tokens, complete: true });
    assert(ts.tokens.subrange(0, p.tokens.len() as int) =~= p.tokens);
    assert(lies_at(ts, 0, 0, p.tokens));
    let end: nat = p.tokens.len();
    assert(parse_expr_spec(ts, 0, 0) == parse_loop_spec(ts, end, rpn, 0));
}

/// Parse round trip: the infix form of what a source text is parsed into
/// is parsed into the same, if the program is written faithfully.
pub proof fn lemma_parse_round_trip(source: Seq<char>)
    requires
        parse_spec(tokenize(source)) is Ok,
        faithful(parse_spec(tokenize(source))->Ok_0),
    ensures
        render_spec(parse_spec(tokenize(source))->Ok_0) matches Some(text) && parse_spec(
            tokenize(text),
        ) == parse_spec(tokenize(source)),
{
    super::postfix::lemma_parse_expression(tokenize(source));
    lemma_round_trip(parse_spec(tokenize(source))->Ok_0);
}

/// Which single characters are read back: tab, line feed and carriage
/// return, and the printable characters of ASCII but the space, the bar and
/// the end-of-input sign.
pub proof fn lemma_char_reads_back(c: char)
    requires
        c == '\t' || c == '\n' || c == '\r' || (0x21 <= c as u32 <= 0x7e && c != '|' && c != '$'),
    ensures
        reads_back(Lit::Char(c)),
{
    reveal_with_fuel(scan, 3);
    let text = Lit::Char(c).text();
    if text.len() == 1 {
        assert(scan(text, 1).raw =~= seq![Token::Lit(Lit::Char(c))]);
    } else {
        assert(scan(text, 2).raw =~= seq![Token::Lit(Lit::Char(c))]);
    }
}

/// Which ranges are read back: those between two characters that are no
/// white space and no sign of the syntax.
pub proof fn lemma_range_reads_back(lo: char, hi: char)
    requires
        !crate::text::is_whitespace(lo),
        !crate::text::is_whitespace(hi),
        super::plain_token(lo) == Token::Lit(Lit::Char(lo)),
        super::plain_token(hi) == Token::Lit(Lit::Char(hi)),
        lo != '\\',
        hi != '\\',
    ensures
        reads_back(Lit::Range(lo, hi)),
{
    reveal_with_fuel(scan, 6);
    let text = Lit::Range(lo, hi).text();
    assert(scan(text, 5).raw =~= lit_raw(Lit::Range(lo, hi)));
}

} // verus!
