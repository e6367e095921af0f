//! Thompson's construction: from a postfix program to an automaton.

use vstd::prelude::*;
use super::model::{edges_within, patchable, patched, targets_within, Automaton};
use super::nfa::{Frag, FragModel, Transition, NFA};
use super::state::State;
use crate::language::CompileError;
use crate::parse::{Postfix, Token};

verus! {

/// The construction in progress: the table so far and the stack of
/// fragments, bottom first.
pub struct Builder {
    pub ts: Seq<Transition>,
    pub stack: Seq<FragModel>,
}

/// The construction before the first token: the end-of-input state and the
/// accepting state, and no fragment.
pub open spec fn builder_init() -> Builder {
    Builder { ts: seq![Transition::Eof, Transition::Accept], stack: Seq::empty() }
}

/// What one token of the postfix program does to the construction.
pub open spec fn builder_step(b: Builder, tok: Token) -> Result<Builder, CompileError> {
    let n = b.stack.len() as int;
    let s = State(b.ts.len() as usize);
    match tok {
        Token::Lit(c) => Ok(
            Builder {
                ts: b.ts.push(Transition::Label(c, s)),
                stack: b.stack.push(FragModel { start: s, out: seq![s] }),
            },
        ),
        Token::Eof => Ok(
            Builder {
                ts: b.ts.push(Transition::Split(Some(State(0)), None)),
                stack: b.stack.push(FragModel { start: s, out: Seq::empty() }),
            },
        ),
        Token::Concat => if n < 2 {
            Err(CompileError::EmptyStack { token: tok })
        } else {
            let e1 = b.stack[n - 2];
            let e2 = b.stack[n - 1];
            Ok(
                Builder {
                    ts: patched(b.ts, e1.out, e2.start),
                    stack: b.stack.take(n - 2).push(FragModel { start: e1.start, out: e2.out }),
                },
            )
        },
        Token::Union => if n < 2 {
            Err(CompileError::EmptyStack { token: tok })
        } else {
            let e1 = b.stack[n - 2];
            let e2 = b.stack[n - 1];
            Ok(
                Builder {
                    ts: b.ts.push(Transition::Split(Some(e1.start), Some(e2.start))),
                    stack: b.stack.take(n - 2).push(FragModel { start: s, out: e1.out + e2.out }),
                },
            )
        },
        Token::Optional => if n < 1 {
            Err(CompileError::EmptyStack { token: tok })
        } else {
            let e = b.stack[n - 1];
            Ok(
                Builder {
                    ts: b.ts.push(Transition::Split(Some(e.start), None)),
                    stack: b.stack.take(n - 1).push(FragModel { start: s, out: e.out.push(s) }),
                },
            )
        },
        Token::KleeneS => if n < 1 {
            Err(CompileError::EmptyStack { token: tok })
        } else {
            let e = b.stack[n - 1];
            Ok(
                Builder {
                    ts: patched(b.ts.push(Transition::Split(Some(e.start), None)), e.out, s),
                    stack: b.stack.take(n - 1).push(FragModel { start: s, out: seq![s] }),
                },
            )
        },
        Token::KleeneP => if n < 1 {
            Err(CompileError::EmptyStack { token: tok })
        } else {
            let e = b.stack[n - 1];
            Ok(
                Builder {
                    ts: patched(b.ts.push(Transition::Split(Some(e.start), None)), e.out, s),
                    stack: b.stack.take(n - 1).push(FragModel { start: e.start, out: seq![s] }),
                },
            )
        },
        Token::Range => Err(CompileError::UnexpectedRange),
        Token::OParen => Err(CompileError::UnexpectedOpenParen),
        Token::CParen => Err(CompileError::UnexpectedCloseParen),
    }
}

/// The construction after the first `k` tokens, or the error of the first
/// token that fails.
pub open spec fn builder_run(tokens: Seq<Token>, k: nat) -> Result<Builder, CompileError>
    decreases k,
{
    if k == 0 {
        Ok(builder_init())
    } else {
        match builder_run(tokens, (k - 1) as nat) {
            Ok(b) => builder_step(b, tokens[k - 1]),
            Err(e) => Err(e),
        }
    }
}

/// The automaton of a postfix program. An empty program gives the automaton
/// whose start is its accepting state; otherwise exactly one fragment must be
/// left, whose dangling edges go to the accepting state.
pub open spec fn compile_spec(tokens: Seq<Token>) -> Result<Automaton, CompileError> {
    match builder_run(tokens, tokens.len()) {
        Err(e) => Err(e),
        Ok(b) => if b.stack.len() == 0 {
            Ok(Automaton { ts: b.ts, start: State(1), accept: State(1), eof: State(0) })
        } else if b.stack.len() == 1 {
            Ok(
                Automaton {
                    ts: patched(b.ts, b.stack[0].out, State(1)),
                    start: b.stack[0].start,
                    accept: State(1),
                    eof: State(0),
                },
            )
        } else {
            Err(CompileError::NonUnaryStack { size: b.stack.len() as usize })
        },
    }
}

/// No successor named by `t` is the state `s`.
pub open spec fn avoids(t: Transition, s: int) -> bool {
    match t {
        Transition::Label(_, e) => e.0 != s,
        Transition::Split(a, b) => {
            &&& a matches Some(x) ==> x.0 != s
            &&& b matches Some(y) ==> y.0 != s
        },
        Transition::Group(_, e) => e.0 != s,
        Transition::Eof => true,
        Transition::Accept => true,
    }
}

/// The fragment lies in the table, beyond the two initial states, and each
/// of its dangling states can still be patched.
pub open spec fn frag_ok(ts: Seq<Transition>, f: FragModel) -> bool {
    &&& 2 <= f.start.0 < ts.len()
    &&& forall|i: int|
        0 <= i < f.out.len() ==> 2 <= (#[trigger] f.out[i]).0 < ts.len() && patchable(
            ts[f.out[i].0 as int],
        )
}

/// The dangling states of the fragments on the stack, read from the bottom
/// fragment to the top one, are strictly increasing.
pub open spec fn frags_ordered(stack: Seq<FragModel>) -> bool {
    forall|a: int, c: int, i: int, j: int|
        0 <= a <= c < stack.len() && 0 <= i < stack[a].out.len() && 0 <= j < stack[c].out.len() && (
        a < c || i < j) ==> (#[trigger] stack[a].out[i]).0 < (#[trigger] stack[c].out[j]).0
}

/// What holds of the construction after every token.
pub open spec fn builder_ok(b: Builder) -> bool {
    &&& 2 <= b.ts.len() <= usize::MAX
    &&& b.ts[0] is Eof
    &&& b.ts[1] is Accept
    &&& forall|i: int| 2 <= i < b.ts.len() ==> (#[trigger] b.ts[i]) is Label || b.ts[i] is Split
    &&& edges_within(b.ts, b.ts.len() as int)
    &&& forall|i: int| 0 <= i < b.ts.len() ==> avoids(#[trigger] b.ts[i], 1)
    &&& forall|a: int| 0 <= a < b.stack.len() ==> frag_ok(b.ts, #[trigger] b.stack[a])
    &&& frags_ordered(b.stack)
}

/// Patching the dangling edges of a fragment towards a state beyond the two
/// initial ones keeps the table in order, and with it every fragment whose
/// dangling states are others.
proof fn lemma_patched_ok(b: Builder, out: Seq<State>, to: State, keep: Seq<FragModel>)
    requires
        builder_ok(b),
        2 <= to.0 < b.ts.len(),
        forall|i: int| 0 <= i < out.len() ==> 2 <= (#[trigger] out[i]).0 < b.ts.len(),
        forall|a: int| 0 <= a < keep.len() ==> frag_ok(b.ts, #[trigger] keep[a]),
        forall|a: int, i: int, j: int|
            0 <= a < keep.len() && 0 <= i < keep[a].out.len() && 0 <= j < out.len() ==> (
            #[trigger] keep[a].out[i]) != (#[trigger] out[j]),
    ensures
        ({
            let ts = patched(b.ts, out, to);
            &&& ts.len() == b.ts.len()
            &&& ts[0] is Eof
            &&& ts[1] is Accept
            &&& forall|i: int| 2 <= i < ts.len() ==> (#[trigger] ts[i]) is Label || ts[i] is Split
            &&& edges_within(ts, ts.len() as int)
            &&& forall|i: int| 0 <= i < ts.len() ==> avoids(#[trigger] ts[i], 1)
            &&& forall|a: int| 0 <= a < keep.len() ==> frag_ok(ts, #[trigger] keep[a])
        }),
{
    let ts = patched(b.ts, out, to);
    assert(!out.contains(State(0usize)));
    assert(!out.contains(State(1usize)));
    assert forall|i: int| 0 <= i < ts.len() implies targets_within(#[trigger] ts[i], ts.len() as int)
        && avoids(ts[i], 1) by {
        assert(targets_within(b.ts[i], b.ts.len() as int));
        assert(avoids(b.ts[i], 1));
    }
    assert forall|i: int| 2 <= i < ts.len() implies (#[trigger] ts[i]) is Label || ts[i] is Split by {
        assert(b.ts[i] is Label || b.ts[i] is Split);
    }
    assert forall|a: int| 0 <= a < keep.len() implies frag_ok(ts, #[trigger] keep[a]) by {
        let f = keep[a];
        assert(frag_ok(b.ts, f));
        assert forall|i: int| 0 <= i < f.out.len() implies 2 <= (#[trigger] f.out[i]).0 < ts.len()
            && patchable(ts[f.out[i].0 as int]) by {
            let o = f.out[i];
            if out.contains(o) {
                let j = choose|j: int| 0 <= j < out.len() && out[j] == o;
                assert(keep[a].out[i] != out[j]);
            }
            assert(State(o.0 as int as usize) == o);
        }
    }
}

/// One token keeps the construction in order.
pub proof fn lemma_builder_step_ok(b: Builder, tok: Token)
    requires
        builder_ok(b),
        builder_step(b, tok) is Ok,
        builder_step(b, tok)->Ok_0.ts.len() <= usize::MAX,
    ensures
        builder_ok(builder_step(b, tok)->Ok_0),
        b.ts.len() <= builder_step(b, tok)->Ok_0.ts.len() <= b.ts.len() + 1,
        builder_step(b, tok)->Ok_0.stack.len() <= b.stack.len() + 1,
        builder_step(b, tok)->Ok_0.stack.len() >= 1,
{
    let r = builder_step(b, tok)->Ok_0;
    let n = b.stack.len() as int;
    let s = State(b.ts.len() as usize);
    match tok {
        Token::Lit(c) => {
            assert(frags_ordered(r.stack));
        },
        Token::Eof => {
            assert(frags_ordered(r.stack));
        },
        Token::Concat => {
            let e1 = b.stack[n - 2];
            let e2 = b.stack[n - 1];
            let keep = b.stack.take(n - 2).push(e2);
            assert(frag_ok(b.ts, e1));
            assert(frag_ok(b.ts, e2));
            assert forall|a: int, i: int, j: int|
                0 <= a < keep.len() && 0 <= i < keep[a].out.len() && 0 <= j < e1.out.len() implies (
            #[trigger] keep[a].out[i]) != (#[trigger] e1.out[j]) by {
                if a < n - 2 {
                    assert(b.stack[a].out[i].0 < b.stack[n - 2].out[j].0);
                } else {
                    assert(b.stack[n - 2].out[j].0 < b.stack[n - 1].out[i].0);
                }
            }
            lemma_patched_ok(b, e1.out, e2.start, keep);
            assert forall|a: int| 0 <= a < r.stack.len() implies frag_ok(r.ts, #[trigger] r.stack[a]) by {
                if a < n - 2 {
                    assert(frag_ok(r.ts, keep[a]));
                } else {
                    assert(frag_ok(r.ts, keep[n - 2]));
                }
            }
            assert forall|a: int, c: int, i: int, j: int|
                0 <= a <= c < r.stack.len() && 0 <= i < r.stack[a].out.len() && 0 <= j
                    < r.stack[c].out.len() && (a < c || i < j) implies (#[trigger] r.stack[a].out[i]).0
                < (#[trigger] r.stack[c].out[j]).0 by {
                let a0 = if a < n - 2 { a } else { n - 1 };
                let c0 = if c < n - 2 { c } else { n - 1 };
                assert(b.stack[a0].out[i].0 < b.stack[c0].out[j].0);
            }
        },
        Token::Union => {
            let e1 = b.stack[n - 2];
            let e2 = b.stack[n - 1];
            assert(frag_ok(b.ts, e1));
            assert(frag_ok(b.ts, e2));
            assert forall|a: int| 0 <= a < r.stack.len() implies frag_ok(r.ts, #[trigger] r.stack[a]) by {
                if a < n - 2 {
                    assert(frag_ok(b.ts, b.stack[a]));
                }
            }
            assert forall|a: int, c: int, i: int, j: int|
                0 <= a <= c < r.stack.len() && 0 <= i < r.stack[a].out.len() && 0 <= j
                    < r.stack[c].out.len() && (a < c || i < j) implies (#[trigger] r.stack[a].out[i]).0
                < (#[trigger] r.stack[c].out[j]).0 by {
                let l1 = e1.out.len() as int;
                let (a0, i0) = if a < n - 2 {
                    (a, i)
                } else if i < l1 {
                    (n - 2, i)
                } else {
                    (n - 1, i - l1)
                };
                let (c0, j0) = if c < n - 2 {
                    (c, j)
                } else if j < l1 {
                    (n - 2, j)
                } else {
                    (n - 1, j - l1)
                };
                assert(b.stack[a0].out[i0].0 < b.stack[c0].out[j0].0);
            }
        },
        Token::Optional => {
            let e = b.stack[n - 1];
            assert(frag_ok(b.ts, e));
            assert forall|a: int| 0 <= a < r.stack.len() implies frag_ok(r.ts, #[trigger] r.stack[a]) by {
                if a < n - 1 {
                    assert(frag_ok(b.ts, b.stack[a]));
                }
            }
            assert forall|a: int, c: int, i: int, j: int|
                0 <= a <= c < r.stack.len() && 0 <= i < r.stack[a].out.len() && 0 <= j
                    < r.stack[c].out.len() && (a < c || i < j) implies (#[trigger] r.stack[a].out[i]).0
                < (#[trigger] r.stack[c].out[j]).0 by {
                assert(frag_ok(b.ts, b.stack[a]));
                if c == n - 1 && j == e.out.len() {
                } else {
                    assert(b.stack[a].out[i].0 < b.stack[c].out[j].0);
                }
            }
        },
        Token::KleeneS | Token::KleeneP => {
            let e = b.stack[n - 1];
            assert(frag_ok(b.ts, e));
            let mid = Builder { ts: b.ts.push(Transition::Split(Some(e.start), None)), stack: b.stack };
            let top = FragModel { start: s, out: seq![s] };
            let keep = b.stack.take(n - 1).push(top);
            assert forall|a: int| 0 <= a < mid.stack.len() implies frag_ok(mid.ts, #[trigger] mid.stack[a]) by {
                assert(frag_ok(b.ts, b.stack[a]));
            }
            assert(builder_ok(mid));
            assert forall|a: int| 0 <= a < keep.len() implies frag_ok(mid.ts, #[trigger] keep[a]) by {
                if a < n - 1 {
                    assert(frag_ok(mid.ts, mid.stack[a]));
                }
            }
            assert forall|a: int, i: int, j: int|
                0 <= a < keep.len() && 0 <= i < keep[a].out.len() && 0 <= j < e.out.len() implies (
            #[trigger] keep[a].out[i]) != (#[trigger] e.out[j]) by {
                if a < n - 1 {
                    assert(b.stack[a].out[i].0 < b.stack[n - 1].out[j].0);
                }
            }
            lemma_patched_ok(mid, e.out, s, keep);
            assert forall|a: int| 0 <= a < r.stack.len() implies frag_ok(r.ts, #[trigger] r.stack[a]) by {
                assert(frag_ok(r.ts, keep[a]));
            }
            assert forall|a: int, c: int, i: int, j: int|
                0 <= a <= c < r.stack.len() && 0 <= i < r.stack[a].out.len() && 0 <= j
                    < r.stack[c].out.len() && (a < c || i < j) implies (#[trigger] r.stack[a].out[i]).0
                < (#[trigger] r.stack[c].out[j]).0 by {
                assert(frag_ok(b.ts, b.stack[a]));
                if c < n - 1 {
                    assert(b.stack[a].out[i].0 < b.stack[c].out[j].0);
                }
            }
        },
        _ => {},
    }
}

/// The construction is in order after any number of tokens, as long as the
/// table stays of a size that can be indexed.
pub proof fn lemma_builder_run_ok(tokens: Seq<Token>, k: nat)
    requires
        k <= tokens.len(),
        k + 2 <= usize::MAX,
        builder_run(tokens, k) is Ok,
    ensures
        builder_ok(builder_run(tokens, k)->Ok_0),
        builder_run(tokens, k)->Ok_0.ts.len() <= k + 2,
        builder_run(tokens, k)->Ok_0.stack.len() <= k,
        k > 0 ==> builder_run(tokens, k)->Ok_0.stack.len() >= 1,
    decreases k,
{
    if k == 0 {
        assert(frags_ordered(builder_init().stack));
    } else {
        lemma_builder_run_ok(tokens, (k - 1) as nat);
        let b = builder_run(tokens, (k - 1) as nat)->Ok_0;
        lemma_builder_step_ok(b, tokens[k - 1]);
    }
}

/// Once a token has failed, the construction stays failed.
pub proof fn lemma_builder_run_err(tokens: Seq<Token>, k: nat, m: nat)
    requires
        k <= m,
        builder_run(tokens, k) is Err,
    ensures
        builder_run(tokens, m) == builder_run(tokens, k),
    decreases m,
{
    if k < m {
        lemma_builder_run_err(tokens, k, (m - 1) as nat);
    }
}

/// Patching towards a state of the table keeps every edge inside the table.
pub proof fn lemma_patched_within(ts: Seq<Transition>, out: Seq<State>, to: State)
    requires
        edges_within(ts, ts.len() as int),
        to.0 < ts.len(),
    ensures
        edges_within(patched(ts, out, to), ts.len() as int),
{
    let ps = patched(ts, out, to);
    assert forall|i: int| 0 <= i < ps.len() implies targets_within(#[trigger] ps[i], ts.len() as int) by {
        assert(targets_within(ts[i], ts.len() as int));
    }
}

/// A program whose operators all find their operands is compiled without
/// error, with one fragment for each operand on the stack.
pub proof fn lemma_depth_builds(tokens: Seq<Token>, k: nat)
    requires
        crate::parse::postfix::depth(tokens, k) is Some,
    ensures
        builder_run(tokens, k) matches Ok(b) && b.stack.len() == crate::parse::postfix::depth(
            tokens,
            k,
        )->0,
    decreases k,
{
    if k > 0 {
        lemma_depth_builds(tokens, (k - 1) as nat);
    }
}

/// The postfix program of one expression is compiled without error.
pub proof fn lemma_expression_compiles(tokens: Seq<Token>)
    requires
        crate::parse::postfix::is_expression(tokens),
    ensures
        compile_spec(tokens) is Ok,
{
    lemma_depth_builds(tokens, tokens.len());
}

/// The fragments of a stack as values.
pub open spec fn frags_view(stack: Seq<Frag>) -> Seq<FragModel> {
    stack.map_values(|f: Frag| f@)
}

impl NFA {
    /// Compile postfix notation into an NFA.
    ///
    /// # Errors
    ///
    /// Fails if the postfix program contains '(' , ')' or '-' tokens, if an
    /// operator finds too few operands, or if more than one expression is
    /// left at the end.
    pub fn compile(postfix: Postfix) -> (r: Result<Self, CompileError>)
        ensures
            match compile_spec(postfix.tokens@) {
                Ok(a) => r matches Ok(nfa) && nfa@ == a && nfa.wf(),
                Err(e) => r matches Err(x) && x == e,
            },
    {
        let mut nfa = Self::new();
        nfa.accept = nfa.new_accept_state();
        let mut stack: Vec<Frag> = Vec::new();
        let n = postfix.tokens.len();
        let ghost tokens = postfix.tokens@;
        assert(nfa.transitions@ =~= builder_init().ts);
        assert(frags_view(stack@) =~= builder_init().stack);
        assert(frags_ordered(builder_init().stack));
        let mut i: usize = 0;
        while i < n
            invariant
                n == tokens.len(),
                tokens == postfix.tokens@,
                i <= n,
                nfa.accept == State(1),
                nfa.eof == State(0),
                builder_run(tokens, i as nat) == Ok::<Builder, CompileError>(
                    Builder { ts: nfa.transitions@, stack: frags_view(stack@) },
                ),
                builder_ok(Builder { ts: nfa.transitions@, stack: frags_view(stack@) }),
                i == 0 ==> stack@.len() == 0,
                i > 0 ==> stack@.len() >= 1,
            decreases n - i,
        {
            let tok = postfix.tokens[i];
            let ghost b = Builder { ts: nfa.transitions@, stack: frags_view(stack@) };
            let depth = stack.len();
            assert(builder_run(tokens, (i + 1) as nat) == builder_step(b, tok));
            assert(forall|a: int| 0 <= a < depth ==> frag_ok(b.ts, #[trigger] b.stack[a]));
            match tok {
                Token::KleeneS => {
                    //   -> e
                    //  /    \
                    // s <----
                    //  \
                    //   -------->
                    if depth < 1 {
                        proof {
                            lemma_builder_run_err(tokens, (i + 1) as nat, n as nat);
                        }
                        return Err(CompileError::EmptyStack { token: tok });
                    }
                    let e = stack.pop().unwrap();
                    assert(e@ == b.stack[depth - 1]);
                    let s = nfa.new_split_state(Some(e.start), None);
                    nfa.patch(&e, s);
                    let mut out: Vec<State> = Vec::new();
                    out.push(s);
                    stack.push(Frag { start: s, out });
                    assert(frags_view(stack@) =~= builder_step(b, tok)->Ok_0.stack);
                },
                Token::Union => {
                    //  /-> e1 ->
                    // s
                    //  \-> e2 ->
                    if depth < 2 {
                        proof {
                            lemma_builder_run_err(tokens, (i + 1) as nat, n as nat);
                        }
                        return Err(CompileError::EmptyStack { token: tok });
                    }
                    let mut e2 = stack.pop().unwrap();
                    let mut e1 = stack.pop().unwrap();
                    assert(e2@ == b.stack[depth - 1]);
                    assert(e1@ == b.stack[depth - 2]);
                    let s = nfa.new_split_state(Some(e1.start), Some(e2.start));
                    e1.out.append(&mut e2.out);
                    e1.start = s;
                    stack.push(e1);
                    assert(frags_view(stack@) =~= builder_step(b, tok)->Ok_0.stack);
                },
                Token::Concat => {
                    // e1 -> e2 ->
                    if depth < 2 {
                        proof {
                            lemma_builder_run_err(tokens, (i + 1) as nat, n as nat);
                        }
                        return Err(CompileError::EmptyStack { token: tok });
                    }
                    let e2 = stack.pop().unwrap();
                    let e1 = stack.pop().unwrap();
                    assert(e2@ == b.stack[depth - 1]);
                    assert(e1@ == b.stack[depth - 2]);
                    nfa.patch(&e1, e2.start);
                    stack.push(Frag { start: e1.start, out: e2.out });
                    assert(frags_view(stack@) =~= builder_step(b, tok)->Ok_0.stack);
                },
                Token::KleeneP => {
                    //  -----
                    // /    |
                    // v    |
                    // e -> s ->
                    if depth < 1 {
                        proof {
                            lemma_builder_run_err(tokens, (i + 1) as nat, n as nat);
                        }
                        return Err(CompileError::EmptyStack { token: tok });
                    }
                    let e = stack.pop().unwrap();
                    assert(e@ == b.stack[depth - 1]);
                    let s = nfa.new_split_state(Some(e.start), None);
                    nfa.patch(&e, s);
                    let mut out: Vec<State> = Vec::new();
                    out.push(s);
                    stack.push(Frag { start: e.start, out });
                    assert(frags_view(stack@) =~= builder_step(b, tok)->Ok_0.stack);
                },
                Token::Optional => {
                    //   -> e --\
                    //  /        v
                    // s
                    //  \        ^
                    //   -------/
                    if depth < 1 {
                        proof {
                            lemma_builder_run_err(tokens, (i + 1) as nat, n as nat);
                        }
                        return Err(CompileError::EmptyStack { token: tok });
                    }
                    let mut e = stack.pop().unwrap();
                    assert(e@ == b.stack[depth - 1]);
                    let s = nfa.new_split_state(Some(e.start), None);
                    e.out.push(s);
                    e.start = s;
                    stack.push(e);
                    assert(frags_view(stack@) =~= builder_step(b, tok)->Ok_0.stack);
                },
                Token::Range => {
                    proof {
                        lemma_builder_run_err(tokens, (i + 1) as nat, n as nat);
                    }
                    return Err(CompileError::UnexpectedRange);
                },
                Token::OParen => {
                    proof {
                        lemma_builder_run_err(tokens, (i + 1) as nat, n as nat);
                    }
                    return Err(CompileError::UnexpectedOpenParen);
                },
                Token::CParen => {
                    proof {
                        lemma_builder_run_err(tokens, (i + 1) as nat, n as nat);
                    }
                    return Err(CompileError::UnexpectedCloseParen);
                },
                Token::Eof => {
                    //   eof
                    // s -> accept
                    let s = nfa.new_split_state(Some(nfa.eof), None);
                    stack.push(Frag { start: s, out: Vec::new() });
                    assert(frags_view(stack@) =~= builder_step(b, tok)->Ok_0.stack);
                },
                Token::Lit(c) => {
                    //   c
                    // s ->
                    let s = nfa.new_label_state(c);
                    let mut out: Vec<State> = Vec::new();
                    out.push(s);
                    stack.push(Frag { start: s, out });
                    assert(frags_view(stack@) =~= builder_step(b, tok)->Ok_0.stack);
                },
            }
            let size = nfa.transitions.len();
            proof {
                assert(nfa.transitions@ == builder_step(b, tok)->Ok_0.ts);
                lemma_builder_step_ok(b, tok);
            }
            i = i + 1;
        }
        let ghost b = Builder { ts: nfa.transitions@, stack: frags_view(stack@) };
        let depth = stack.len();
        if depth == 0 {
            nfa.start = nfa.accept;
            Ok(nfa)
        } else if depth == 1 {
            let e = stack.pop().unwrap();
            assert(e@ == b.stack[0]);
            assert(frag_ok(b.ts, b.stack[0]));
            nfa.start = e.start;
            let accept = nfa.accept;
            nfa.patch(&e, accept);
            proof {
                lemma_patched_within(b.ts, e.out@, State(1));
            }
            Ok(nfa)
        } else {
            Err(CompileError::NonUnaryStack { size: depth })
        }
    }
}

} // verus!
