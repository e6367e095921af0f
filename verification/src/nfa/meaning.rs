//! What a pattern means, and that the automaton of a pattern means the same.

use vstd::prelude::*;
use super::model::{patched, Automaton};
use super::nfa::{FragModel, Transition};
use super::state::State;
use super::thompson::{builder_run, builder_step, compile_spec, lemma_builder_run_ok, Builder};
use crate::language::Group;
use crate::parse::postfix::{depth, is_expression};
use crate::parse::{Lit, Token};

verus! {

/// A pattern as a tree.
pub enum Pattern {
    /// One character that the literal accepts.
    Lit(Lit),
    /// The end of the input.
    End,
    /// One pattern after the other.
    Cat(Box<Pattern>, Box<Pattern>),
    /// One pattern or the other.
    Alt(Box<Pattern>, Box<Pattern>),
    /// The pattern any number of times.
    Star(Box<Pattern>),
    /// The pattern once or more often.
    Plus(Box<Pattern>),
    /// The pattern or nothing.
    Opt(Box<Pattern>),
}

/// The word `w` is matched by the pattern. With `end`, the pattern comes to
/// an end-of-input sign after `w`, which must then be the rest of the input;
/// without, the pattern is matched by `w` as a whole, and more may follow.
pub open spec fn means(p: Pattern, w: Seq<char>, end: bool) -> bool
    decreases p, 0nat, w.len(),
{
    match p {
        Pattern::Lit(l) => !end && w.len() == 1 && l.spec_accepts(w[0]),
        Pattern::End => end && w.len() == 0,
        Pattern::Cat(a, b) => (end && means(*a, w, true)) || exists|k: int|
            0 <= k <= w.len() && means(*a, #[trigger] w.take(k), false) && means(*b, w.skip(k), end),
        Pattern::Alt(a, b) => means(*a, w, end) || means(*b, w, end),
        Pattern::Opt(a) => (!end && w.len() == 0) || means(*a, w, end),
        Pattern::Star(a) => means_star(*a, w, end),
        Pattern::Plus(a) => (end && means(*a, w, true)) || exists|k: int|
            0 <= k <= w.len() && means(*a, #[trigger] w.take(k), false) && means_star(
                *a,
                w.skip(k),
                end,
            ),
    }
}

/// The word `w` is matched by the pattern taken any number of times.
pub open spec fn means_star(p: Pattern, w: Seq<char>, end: bool) -> bool
    decreases p, 1nat, w.len(),
{
    ||| !end && w.len() == 0
    ||| end && means(p, w, true)
    ||| exists|k: int|
        0 < k <= w.len() && means(p, #[trigger] w.take(k), false) && means_star(p, w.skip(k), end)
}

/// What one token does to the stack of patterns; `None` if the stack holds
/// too little, or if the token is one that no postfix program holds.
pub open spec fn pattern_step(stack: Seq<Pattern>, token: Token) -> Option<Seq<Pattern>> {
    let n = stack.len() as int;
    match token {
        Token::Lit(l) => Some(stack.push(Pattern::Lit(l))),
        Token::Eof => Some(stack.push(Pattern::End)),
        Token::KleeneS => if n < 1 {
            None
        } else {
            Some(stack.take(n - 1).push(Pattern::Star(Box::new(stack[n - 1]))))
        },
        Token::KleeneP => if n < 1 {
            None
        } else {
            Some(stack.take(n - 1).push(Pattern::Plus(Box::new(stack[n - 1]))))
        },
        Token::Optional => if n < 1 {
            None
        } else {
            Some(stack.take(n - 1).push(Pattern::Opt(Box::new(stack[n - 1]))))
        },
        Token::Concat => if n < 2 {
            None
        } else {
            Some(
                stack.take(n - 2).push(
                    Pattern::Cat(Box::new(stack[n - 2]), Box::new(stack[n - 1])),
                ),
            )
        },
        Token::Union => if n < 2 {
            None
        } else {
            Some(
                stack.take(n - 2).push(
                    Pattern::Alt(Box::new(stack[n - 2]), Box::new(stack[n - 1])),
                ),
            )
        },
        Token::OParen | Token::CParen | Token::Range => None,
    }
}

/// The stack of patterns after the first `k` tokens of a postfix program.
pub open spec fn patterns(tokens: Seq<Token>, k: nat) -> Option<Seq<Pattern>>
    decreases k,
{
    if k == 0 {
        Some(Seq::empty())
    } else {
        match patterns(tokens, (k - 1) as nat) {
            Some(stack) => pattern_step(stack, tokens[k - 1]),
            None => None,
        }
    }
}

/// The pattern of a postfix program of one expression.
pub open spec fn pattern_of(tokens: Seq<Token>) -> Option<Pattern> {
    match patterns(tokens, tokens.len()) {
        Some(stack) => if stack.len() == 1 {
            Some(stack[0])
        } else {
            None
        },
        None => None,
    }
}

/// How a way through a table ends: through a dangling edge, at the
/// end-of-input state, or at the accepting state.
pub enum Exit {
    Out,
    End,
    Accept,
}

/// The state is one whose edge dangles: a label state that loops to itself,
/// or a split whose second slot is vacant and whose first does not lead to
/// the end-of-input state.
pub open spec fn dangles(ts: Seq<Transition>, u: int) -> bool {
    0 <= u < ts.len() && match ts[u] {
        Transition::Label(_, e) => e.0 == u,
        Transition::Split(a, b) => b is None && a != Some(State(0usize)),
        _ => false,
    }
}

/// From state `u` there is a way of `n` moves that spells `w` and then ends
/// as `x` says.
pub open spec fn walk(ts: Seq<Transition>, u: int, w: Seq<char>, n: nat, x: Exit) -> bool
    decreases n,
{
    if !(0 <= u < ts.len()) {
        false
    } else {
        match ts[u] {
            Transition::Eof => n == 0 && w.len() == 0 && x is End,
            Transition::Accept => n == 0 && w.len() == 0 && x is Accept,
            Transition::Label(l, e) => w.len() >= 1 && l.spec_accepts(w[0]) && if e.0 == u {
                n == 0 && w.len() == 1 && x is Out
            } else {
                n > 0 && walk(ts, e.0 as int, w.skip(1), (n - 1) as nat, x)
            },
            Transition::Split(a, b) => {
                ||| a matches Some(p) && n > 0 && walk(ts, p.0 as int, w, (n - 1) as nat, x)
                ||| b matches Some(q) && n > 0 && walk(ts, q.0 as int, w, (n - 1) as nat, x)
                ||| b is None && a != Some(State(0usize)) && n == 0 && w.len() == 0 && x is Out
            },
            Transition::Group(_, _) => false,
        }
    }
}

/// From state `u` there is a way that spells `w` and then ends as `x` says.
pub open spec fn goes(ts: Seq<Transition>, u: int, w: Seq<char>, x: Exit) -> bool {
    exists|n: nat| walk(ts, u, w, n, x)
}

/// The states from `lo` up to `hi` are a zone of their own: each of them
/// consumes or splits, and its edges lead to states of the zone, or to the
/// end-of-input state.
pub open spec fn closed(ts: Seq<Transition>, lo: int, hi: int) -> bool {
    &&& 2 <= lo <= hi <= ts.len() <= usize::MAX
    &&& ts[0] is Eof
    &&& forall|v: int|
        lo <= v < hi ==> match #[trigger] ts[v] {
            Transition::Label(_, e) => lo <= e.0 < hi,
            Transition::Split(a, b) => {
                &&& a matches Some(x) ==> x.0 == 0 || lo <= x.0 < hi
                &&& b matches Some(y) ==> lo <= y.0 < hi
            },
            _ => false,
        }
}

/// Among the states of the zone, those in `out` are the ones whose edge
/// dangles.
pub open spec fn dangling(ts: Seq<Transition>, lo: int, hi: int, out: Seq<State>) -> bool {
    &&& forall|i: int| 0 <= i < out.len() ==> lo <= (#[trigger] out[i]).0 < hi
    &&& forall|v: int| lo <= v < hi ==> (#[trigger] dangles(ts, v) <==> out.contains(State(v as usize)))
}

/// A way through a zone is the same in every table that holds the zone.
pub proof fn lemma_walk_frame(
    ts: Seq<Transition>,
    other: Seq<Transition>,
    lo: int,
    hi: int,
    u: int,
    w: Seq<char>,
    n: nat,
    x: Exit,
)
    requires
        closed(ts, lo, hi),
        other.len() >= hi,
        forall|v: int| lo <= v < hi ==> #[trigger] other[v] == ts[v],
        other[0] == ts[0],
        lo <= u < hi || u == 0,
    ensures
        walk(ts, u, w, n, x) == walk(other, u, w, n, x),
    decreases n,
{
    if u != 0 {
        assert(other[u] == ts[u]);
        match ts[u] {
            Transition::Label(_, e) => {
                if e.0 != u && n > 0 {
                    lemma_walk_frame(ts, other, lo, hi, e.0 as int, w.skip(1), (n - 1) as nat, x);
                }
            },
            Transition::Split(a, b) => {
                if n > 0 {
                    if let Some(p) = a {
                        lemma_walk_frame(ts, other, lo, hi, p.0 as int, w, (n - 1) as nat, x);
                    }
                    if let Some(q) = b {
                        lemma_walk_frame(ts, other, lo, hi, q.0 as int, w, (n - 1) as nat, x);
                    }
                }
            },
            _ => {},
        }
    }
}

/// A way through a zone is the same in every table that holds the zone.
pub proof fn lemma_goes_frame(
    ts: Seq<Transition>,
    other: Seq<Transition>,
    lo: int,
    hi: int,
    u: int,
    w: Seq<char>,
    x: Exit,
)
    requires
        closed(ts, lo, hi),
        other.len() >= hi,
        forall|v: int| lo <= v < hi ==> #[trigger] other[v] == ts[v],
        other[0] == ts[0],
        lo <= u < hi || u == 0,
    ensures
        goes(ts, u, w, x) == goes(other, u, w, x),
{
    if goes(ts, u, w, x) {
        let n = choose|n: nat| walk(ts, u, w, n, x);
        lemma_walk_frame(ts, other, lo, hi, u, w, n, x);
    }
    if goes(other, u, w, x) {
        let n = choose|n: nat| walk(other, u, w, n, x);
        lemma_walk_frame(ts, other, lo, hi, u, w, n, x);
    }
}

/// A way is cut after `k` characters into one of `n1` moves and one of `n2`
/// moves.
pub open spec fn cut(k: int, n1: nat, n2: nat) -> bool {
    true
}

/// What patching a zone does to the ways from its states.
pub open spec fn patch_zone(
    ts: Seq<Transition>,
    out: Seq<State>,
    to: State,
    lo: int,
    hi: int,
) -> bool {
    &&& closed(ts, lo, hi)
    &&& dangling(ts, lo, hi, out)
    &&& !(lo <= to.0 < hi)
    &&& to.0 != 0
    &&& to.0 < ts.len()
}

/// A way through a patched zone is a way that came to the end-of-input
/// state before, or a way through a dangling edge before, with a way from
/// the state that the edge has been pointed at.
pub proof fn lemma_patch_fwd(
    ts: Seq<Transition>,
    out: Seq<State>,
    to: State,
    lo: int,
    hi: int,
    u: int,
    w: Seq<char>,
    n: nat,
    x: Exit,
)
    requires
        patch_zone(ts, out, to, lo, hi),
        lo <= u < hi || u == 0,
        walk(patched(ts, out, to), u, w, n, x),
    ensures
        (x is End && walk(ts, u, w, n, x)) || exists|k: int, n1: nat, n2: nat| #[trigger]
            cut(k, n1, n2) && 0 <= k <= w.len() && n == n1 + 1 + n2 && walk(
                ts,
                u,
                w.take(k),
                n1,
                Exit::Out,
            ) && walk(patched(ts, out, to), to.0 as int, w.skip(k), n2, x),
    decreases n,
{
    let after = patched(ts, out, to);
    if u != 0 {
        assert(after[u] == if out.contains(State(u as usize)) {
            super::model::redirect(ts[u], to)
        } else {
            ts[u]
        });
        assert(dangles(ts, u) <==> out.contains(State(u as usize)));
        match ts[u] {
            Transition::Label(l, e) => {
                if e.0 == u {
                    // The dangling edge of a label state.
                    assert(w.take(1) =~= seq![w[0]]);
                    assert(walk(ts, u, w.take(1), 0, Exit::Out));
                    assert(cut(1, 0, (n - 1) as nat));
                } else {
                    let rest = w.skip(1);
                    lemma_patch_fwd(ts, out, to, lo, hi, e.0 as int, rest, (n - 1) as nat, x);
                    if x is End && walk(ts, e.0 as int, rest, (n - 1) as nat, x) {
                    } else {
                        let (k, n1, n2) = choose|k: int, n1: nat, n2: nat| #[trigger]
                            cut(k, n1, n2) && 0 <= k <= rest.len() && n - 1 == n1 + 1 + n2 && walk(
                                ts,
                                e.0 as int,
                                rest.take(k),
                                n1,
                                Exit::Out,
                            ) && walk(after, to.0 as int, rest.skip(k), n2, x);
                        assert(w.take(k + 1).skip(1) =~= rest.take(k));
                        assert(w.skip(k + 1) =~= rest.skip(k));
                        assert(walk(ts, u, w.take(k + 1), n1 + 1, Exit::Out));
                        assert(cut(k + 1, n1 + 1, n2));
                    }
                }
            },
            Transition::Split(a, b) => {
                if dangles(ts, u) && walk(after, to.0 as int, w, (n - 1) as nat, x) && n > 0 {
                    // The dangling edge of a split.
                    assert(w.take(0) =~= Seq::<char>::empty());
                    assert(w.skip(0) =~= w);
                    assert(walk(ts, u, w.take(0), 0, Exit::Out));
                    assert(cut(0, 0, (n - 1) as nat));
                } else {
                    let p = if a matches Some(p) && n > 0 && walk(
                        after,
                        p.0 as int,
                        w,
                        (n - 1) as nat,
                        x,
                    ) {
                        a->0
                    } else {
                        b->0
                    };
                    lemma_patch_fwd(ts, out, to, lo, hi, p.0 as int, w, (n - 1) as nat, x);
                    if x is End && walk(ts, p.0 as int, w, (n - 1) as nat, x) {
                    } else {
                        let (k, n1, n2) = choose|k: int, n1: nat, n2: nat| #[trigger]
                            cut(k, n1, n2) && 0 <= k <= w.len() && n - 1 == n1 + 1 + n2 && walk(
                                ts,
                                p.0 as int,
                                w.take(k),
                                n1,
                                Exit::Out,
                            ) && walk(after, to.0 as int, w.skip(k), n2, x);
                        assert(walk(ts, u, w.take(k), n1 + 1, Exit::Out));
                        assert(cut(k, n1 + 1, n2));
                    }
                }
            },
            _ => {},
        }
    } else {
        assert(!out.contains(State(0usize)));
    }
}

/// A way to the end-of-input state is kept when a zone is patched.
pub proof fn lemma_patch_keep(
    ts: Seq<Transition>,
    out: Seq<State>,
    to: State,
    lo: int,
    hi: int,
    u: int,
    w: Seq<char>,
    n: nat,
)
    requires
        patch_zone(ts, out, to, lo, hi),
        lo <= u < hi || u == 0,
        walk(ts, u, w, n, Exit::End),
    ensures
        walk(patched(ts, out, to), u, w, n, Exit::End),
    decreases n,
{
    let after = patched(ts, out, to);
    if u != 0 {
        assert(after[u] == if out.contains(State(u as usize)) {
            super::model::redirect(ts[u], to)
        } else {
            ts[u]
        });
        assert(dangles(ts, u) <==> out.contains(State(u as usize)));
        match ts[u] {
            Transition::Label(l, e) => {
                lemma_patch_keep(ts, out, to, lo, hi, e.0 as int, w.skip(1), (n - 1) as nat);
            },
            Transition::Split(a, b) => {
                let first = a->0;
                let second = b->0;
                if a is Some && n > 0 && walk(ts, first.0 as int, w, (n - 1) as nat, Exit::End) {
                    lemma_patch_keep(ts, out, to, lo, hi, first.0 as int, w, (n - 1) as nat);
                } else {
                    lemma_patch_keep(ts, out, to, lo, hi, second.0 as int, w, (n - 1) as nat);
                }
            },
            _ => {},
        }
    } else {
        assert(!out.contains(State(0usize)));
    }
}

/// A way through a dangling edge goes on, when the zone is patched, with a
/// way from the state that the edge has been pointed at.
pub proof fn lemma_patch_join(
    ts: Seq<Transition>,
    out: Seq<State>,
    to: State,
    lo: int,
    hi: int,
    u: int,
    w1: Seq<char>,
    n1: nat,
    w2: Seq<char>,
    n2: nat,
    x: Exit,
)
    requires
        patch_zone(ts, out, to, lo, hi),
        lo <= u < hi,
        walk(ts, u, w1, n1, Exit::Out),
        walk(patched(ts, out, to), to.0 as int, w2, n2, x),
    ensures
        walk(patched(ts, out, to), u, w1 + w2, n1 + 1 + n2, x),
    decreases n1,
{
    let after = patched(ts, out, to);
    assert(after[u] == if out.contains(State(u as usize)) {
        super::model::redirect(ts[u], to)
    } else {
        ts[u]
    });
    assert(dangles(ts, u) <==> out.contains(State(u as usize)));
    match ts[u] {
        Transition::Label(l, e) => {
            assert((w1 + w2)[0] == w1[0]);
            if e.0 == u {
                assert((w1 + w2).skip(1) =~= w2);
            } else {
                lemma_patch_join(ts, out, to, lo, hi, e.0 as int, w1.skip(1), (n1 - 1) as nat, w2, n2, x);
                assert((w1 + w2).skip(1) =~= w1.skip(1) + w2);
            }
        },
        Transition::Split(a, b) => {
            let first = a->0;
            let second = b->0;
            if a is Some && n1 > 0 && walk(ts, first.0 as int, w1, (n1 - 1) as nat, Exit::Out) {
                lemma_patch_join(ts, out, to, lo, hi, first.0 as int, w1, (n1 - 1) as nat, w2, n2, x);
            } else if b is Some && n1 > 0 && walk(ts, second.0 as int, w1, (n1 - 1) as nat, Exit::Out) {
                lemma_patch_join(ts, out, to, lo, hi, second.0 as int, w1, (n1 - 1) as nat, w2, n2, x);
            } else {
                assert(w1 + w2 =~= w2);
            }
        },
        _ => {},
    }
}

/// The ways from `start` through the table are those of the pattern: a way
/// ends through a dangling edge when its word is matched by the pattern as a
/// whole, and at the end-of-input state when the pattern comes to an
/// end-of-input sign after its word; no way ends at the accepting state.
pub open spec fn sem(ts: Seq<Transition>, start: int, p: Pattern) -> bool {
    forall|w: Seq<char>, x: Exit| #[trigger]
        goes(ts, start, w, x) <==> (x !is Accept && means(p, w, x is End))
}

/// The fragment lies in its zone, its dangling states are those of the
/// zone, and its ways are those of the pattern.
pub open spec fn zone_ok(ts: Seq<Transition>, f: FragModel, lo: int, hi: int, p: Pattern) -> bool {
    &&& closed(ts, lo, hi)
    &&& dangling(ts, lo, hi, f.out)
    &&& lo <= f.start.0 < hi
    &&& sem(ts, f.start.0 as int, p)
}

/// How a way ends that is matched with or without an end-of-input sign.
pub open spec fn exit_of(end: bool) -> Exit {
    if end {
        Exit::End
    } else {
        Exit::Out
    }
}

/// A fragment keeps its zone and its ways in every table that holds the
/// zone.
pub proof fn lemma_zone_frame(
    ts: Seq<Transition>,
    other: Seq<Transition>,
    f: FragModel,
    lo: int,
    hi: int,
    p: Pattern,
)
    requires
        zone_ok(ts, f, lo, hi, p),
        hi <= other.len() <= usize::MAX,
        forall|v: int| lo <= v < hi ==> #[trigger] other[v] == ts[v],
        other[0] == ts[0],
    ensures
        zone_ok(other, f, lo, hi, p),
{
    assert forall|v: int| lo <= v < hi implies (#[trigger] dangles(other, v) <==> f.out.contains(
        State(v as usize),
    )) by {
        assert(other[v] == ts[v]);
        assert(dangles(ts, v) <==> f.out.contains(State(v as usize)));
    }
    assert forall|w: Seq<char>, x: Exit| #[trigger]
        goes(other, f.start.0 as int, w, x) <==> (x !is Accept && means(p, w, x is End)) by {
        lemma_goes_frame(ts, other, lo, hi, f.start.0 as int, w, x);
        assert(goes(ts, f.start.0 as int, w, x) <==> (x !is Accept && means(p, w, x is End)));
    }
}

/// The fragment of a literal.
pub proof fn lemma_sem_lit(ts: Seq<Transition>, l: Lit)
    requires
        2 <= ts.len() < usize::MAX,
        ts[0] is Eof,
    ensures
        zone_ok(
            ts.push(Transition::Label(l, State(ts.len() as usize))),
            FragModel { start: State(ts.len() as usize), out: seq![State(ts.len() as usize)] },
            ts.len() as int,
            ts.len() as int + 1,
            Pattern::Lit(l),
        ),
{
    let s = ts.len() as int;
    let state = State(s as usize);
    let after = ts.push(Transition::Label(l, state));
    let out = seq![state];
    assert(out[0] == state);
    assert(dangles(after, s));
    assert forall|w: Seq<char>, x: Exit| #[trigger]
        goes(after, s, w, x) <==> (x !is Accept && means(Pattern::Lit(l), w, x is End)) by {
        if x is Out && means(Pattern::Lit(l), w, false) {
            assert(walk(after, s, w, 0, x));
        }
        if goes(after, s, w, x) {
            let n = choose|n: nat| walk(after, s, w, n, x);
        }
    }
}

/// The fragment of the end-of-input sign.
pub proof fn lemma_sem_end(ts: Seq<Transition>)
    requires
        2 <= ts.len() < usize::MAX,
        ts[0] is Eof,
    ensures
        zone_ok(
            ts.push(Transition::Split(Some(State(0)), None)),
            FragModel { start: State(ts.len() as usize), out: Seq::empty() },
            ts.len() as int,
            ts.len() as int + 1,
            Pattern::End,
        ),
{
    let s = ts.len() as int;
    let after = ts.push(Transition::Split(Some(State(0)), None));
    assert(!dangles(after, s));
    assert forall|w: Seq<char>, x: Exit| #[trigger]
        goes(after, s, w, x) <==> (x !is Accept && means(Pattern::End, w, x is End)) by {
        if x is End && w.len() == 0 {
            assert(walk(after, 0, w, 0, x));
            assert(walk(after, s, w, 1, x));
        }
        if goes(after, s, w, x) {
            let n = choose|n: nat| walk(after, s, w, n, x);
            assert(walk(after, 0, w, (n - 1) as nat, x));
        }
    }
}

/// The fragment of an optional pattern.
pub proof fn lemma_sem_opt(ts: Seq<Transition>, f: FragModel, lo: int, p: Pattern)
    requires
        ts.len() < usize::MAX,
        zone_ok(ts, f, lo, ts.len() as int, p),
    ensures
        zone_ok(
            ts.push(Transition::Split(Some(f.start), None)),
            FragModel { start: State(ts.len() as usize), out: f.out.push(State(ts.len() as usize)) },
            lo,
            ts.len() as int + 1,
            Pattern::Opt(Box::new(p)),
        ),
{
    let s = ts.len() as int;
    let state = State(s as usize);
    let after = ts.push(Transition::Split(Some(f.start), None));
    let out = f.out.push(state);
    let whole = Pattern::Opt(Box::new(p));
    lemma_zone_frame(ts, after, f, lo, s, p);
    assert(dangles(after, s));
    assert(out[f.out.len() as int] == state);
    assert forall|i: int| 0 <= i < out.len() implies lo <= (#[trigger] out[i]).0 < s + 1 by {
        if i < f.out.len() {
            assert(out[i] == f.out[i]);
        }
    }
    assert forall|v: int| lo <= v < s + 1 implies (#[trigger] dangles(after, v) <==> out.contains(
        State(v as usize),
    )) by {
        if v < s {
            assert(dangles(after, v) <==> f.out.contains(State(v as usize)));
            if f.out.contains(State(v as usize)) {
                let i = choose|i: int| 0 <= i < f.out.len() && f.out[i] == State(v as usize);
                assert(out[i] == State(v as usize));
            }
            if out.contains(State(v as usize)) {
                let i = choose|i: int| 0 <= i < out.len() && out[i] == State(v as usize);
                assert(f.out[i] == State(v as usize));
            }
        }
    }
    assert forall|w: Seq<char>, x: Exit| #[trigger]
        goes(after, s, w, x) <==> (x !is Accept && means(whole, w, x is End)) by {
        assert(goes(after, f.start.0 as int, w, x) <==> (x !is Accept && means(p, w, x is End)));
        if goes(after, f.start.0 as int, w, x) {
            let n = choose|n: nat| walk(after, f.start.0 as int, w, n, x);
            assert(walk(after, s, w, n + 1, x));
        }
        if x is Out && w.len() == 0 {
            assert(walk(after, s, w, 0, x));
        }
        if goes(after, s, w, x) {
            let n = choose|n: nat| walk(after, s, w, n, x);
            if n > 0 {
                assert(walk(after, f.start.0 as int, w, (n - 1) as nat, x));
            }
        }
    }
}

/// The fragment of one pattern or the other.
pub proof fn lemma_sem_alt(
    ts: Seq<Transition>,
    f1: FragModel,
    lo: int,
    pa: Pattern,
    f2: FragModel,
    mid: int,
    pb: Pattern,
)
    requires
        ts.len() < usize::MAX,
        zone_ok(ts, f1, lo, mid, pa),
        zone_ok(ts, f2, mid, ts.len() as int, pb),
    ensures
        zone_ok(
            ts.push(Transition::Split(Some(f1.start), Some(f2.start))),
            FragModel { start: State(ts.len() as usize), out: f1.out + f2.out },
            lo,
            ts.len() as int + 1,
            Pattern::Alt(Box::new(pa), Box::new(pb)),
        ),
{
    let s = ts.len() as int;
    let after = ts.push(Transition::Split(Some(f1.start), Some(f2.start)));
    let out = f1.out + f2.out;
    let whole = Pattern::Alt(Box::new(pa), Box::new(pb));
    lemma_zone_frame(ts, after, f1, lo, mid, pa);
    lemma_zone_frame(ts, after, f2, mid, s, pb);
    assert(!dangles(after, s));
    assert forall|i: int| 0 <= i < out.len() implies lo <= (#[trigger] out[i]).0 < s + 1 by {
        if i < f1.out.len() {
            assert(out[i] == f1.out[i]);
        } else {
            assert(out[i] == f2.out[i - f1.out.len()]);
        }
    }
    assert forall|v: int| lo <= v < s + 1 implies (#[trigger] dangles(after, v) <==> out.contains(
        State(v as usize),
    )) by {
        let state = State(v as usize);
        if out.contains(state) {
            let i = choose|i: int| 0 <= i < out.len() && out[i] == state;
            if i < f1.out.len() {
                assert(f1.out[i] == state);
            } else {
                assert(f2.out[i - f1.out.len()] == state);
            }
        }
        if v < mid {
            assert(dangles(after, v) <==> f1.out.contains(state));
            if f1.out.contains(state) {
                let i = choose|i: int| 0 <= i < f1.out.len() && f1.out[i] == state;
                assert(out[i] == state);
            }
        } else if v < s {
            assert(dangles(after, v) <==> f2.out.contains(state));
            if f2.out.contains(state) {
                let i = choose|i: int| 0 <= i < f2.out.len() && f2.out[i] == state;
                assert(out[f1.out.len() + i] == state);
            }
        }
    }
    assert forall|w: Seq<char>, x: Exit| #[trigger]
        goes(after, s, w, x) <==> (x !is Accept && means(whole, w, x is End)) by {
        assert(goes(after, f1.start.0 as int, w, x) <==> (x !is Accept && means(pa, w, x is End)));
        assert(goes(after, f2.start.0 as int, w, x) <==> (x !is Accept && means(pb, w, x is End)));
        if goes(after, f1.start.0 as int, w, x) {
            let n = choose|n: nat| walk(after, f1.start.0 as int, w, n, x);
            assert(walk(after, s, w, n + 1, x));
        }
        if goes(after, f2.start.0 as int, w, x) {
            let n = choose|n: nat| walk(after, f2.start.0 as int, w, n, x);
            assert(walk(after, s, w, n + 1, x));
        }
        if goes(after, s, w, x) {
            let n = choose|n: nat| walk(after, s, w, n, x);
            if walk(after, f1.start.0 as int, w, (n - 1) as nat, x) {
            } else {
                assert(walk(after, f2.start.0 as int, w, (n - 1) as nat, x));
            }
        }
    }
}

/// What patching a fragment does to its zone: with the states of a second
/// zone behind it, the two are one zone whose dangling states are the given
/// ones of the second.
proof fn lemma_patched_zone(
    ts: Seq<Transition>,
    out: Seq<State>,
    to: State,
    lo: int,
    mid: int,
    hi: int,
    rest: Seq<State>,
)
    requires
        closed(ts, lo, mid),
        dangling(ts, lo, mid, out),
        closed(ts, mid, hi),
        dangling(ts, mid, hi, rest),
        mid <= to.0 < hi,
    ensures
        closed(patched(ts, out, to), lo, hi),
        dangling(patched(ts, out, to), lo, hi, rest),
        forall|v: int| mid <= v < hi ==> (#[trigger] patched(ts, out, to)[v]) == ts[v],
        patched(ts, out, to)[0] == ts[0],
{
    let after = patched(ts, out, to);
    assert(!out.contains(State(0usize)));
    assert forall|v: int| mid <= v < hi implies (#[trigger] after[v]) == ts[v] by {
        if out.contains(State(v as usize)) {
            let i = choose|i: int| 0 <= i < out.len() && out[i] == State(v as usize);
            assert(lo <= out[i].0 < mid);
        }
    }
    assert forall|v: int| lo <= v < hi implies match #[trigger] after[v] {
        Transition::Label(_, e) => lo <= e.0 < hi,
        Transition::Split(a, b) => {
            &&& a matches Some(x) ==> x.0 == 0 || lo <= x.0 < hi
            &&& b matches Some(y) ==> lo <= y.0 < hi
        },
        _ => false,
    } by {
        if v < mid {
            let t = ts[v];
            assert(match t {
                Transition::Label(_, e) => lo <= e.0 < mid,
                Transition::Split(a, b) => {
                    &&& a matches Some(x) ==> x.0 == 0 || lo <= x.0 < mid
                    &&& b matches Some(y) ==> lo <= y.0 < mid
                },
                _ => false,
            });
        } else {
            let t = ts[v];
            assert(after[v] == t);
            assert(match t {
                Transition::Label(_, e) => mid <= e.0 < hi,
                Transition::Split(a, b) => {
                    &&& a matches Some(x) ==> x.0 == 0 || mid <= x.0 < hi
                    &&& b matches Some(y) ==> mid <= y.0 < hi
                },
                _ => false,
            });
        }
    }
    assert forall|i: int| 0 <= i < rest.len() implies lo <= (#[trigger] rest[i]).0 < hi by {
        assert(mid <= rest[i].0 < hi);
    }
    assert forall|v: int| lo <= v < hi implies (#[trigger] dangles(after, v) <==> rest.contains(
        State(v as usize),
    )) by {
        let state = State(v as usize);
        if rest.contains(state) {
            let i = choose|i: int| 0 <= i < rest.len() && rest[i] == state;
            assert(mid <= rest[i].0 < hi);
        }
        if v < mid {
            assert(dangles(ts, v) <==> out.contains(state));
        } else {
            assert(after[v] == ts[v]);
            assert(dangles(ts, v) <==> rest.contains(state));
        }
    }
}

/// The fragment of one pattern after the other.
pub proof fn lemma_sem_cat(
    ts: Seq<Transition>,
    f1: FragModel,
    lo: int,
    pa: Pattern,
    f2: FragModel,
    mid: int,
    hi: int,
    pb: Pattern,
)
    requires
        zone_ok(ts, f1, lo, mid, pa),
        zone_ok(ts, f2, mid, hi, pb),
    ensures
        zone_ok(
            patched(ts, f1.out, f2.start),
            FragModel { start: f1.start, out: f2.out },
            lo,
            hi,
            Pattern::Cat(Box::new(pa), Box::new(pb)),
        ),
{
    let to = f2.start;
    let after = patched(ts, f1.out, to);
    let whole = Pattern::Cat(Box::new(pa), Box::new(pb));
    let u = f1.start.0 as int;
    let t = to.0 as int;
    lemma_patched_zone(ts, f1.out, to, lo, mid, hi, f2.out);
    assert(patch_zone(ts, f1.out, to, lo, mid));
    assert forall|w: Seq<char>, x: Exit| #[trigger]
        goes(after, u, w, x) <==> (x !is Accept && means(whole, w, x is End)) by {
        if goes(after, u, w, x) {
            let n = choose|n: nat| walk(after, u, w, n, x);
            lemma_patch_fwd(ts, f1.out, to, lo, mid, u, w, n, x);
            if x is End && walk(ts, u, w, n, x) {
                assert(goes(ts, u, w, x));
            } else {
                let (k, n1, n2) = choose|k: int, n1: nat, n2: nat| #[trigger]
                    cut(k, n1, n2) && 0 <= k <= w.len() && n == n1 + 1 + n2 && walk(
                        ts,
                        u,
                        w.take(k),
                        n1,
                        Exit::Out,
                    ) && walk(after, t, w.skip(k), n2, x);
                assert(goes(ts, u, w.take(k), Exit::Out));
                lemma_walk_frame(ts, after, mid, hi, t, w.skip(k), n2, x);
                assert(goes(ts, t, w.skip(k), x));
                assert(means(pa, w.take(k), false));
                assert(means(pb, w.skip(k), x is End));
            }
        }
        if x !is Accept && means(whole, w, x is End) {
            if x is End && means(pa, w, true) {
                assert(goes(ts, u, w, Exit::End));
                let n = choose|n: nat| walk(ts, u, w, n, Exit::End);
                lemma_patch_keep(ts, f1.out, to, lo, mid, u, w, n);
            } else {
                let k = choose|k: int|
                    0 <= k <= w.len() && means(pa, #[trigger] w.take(k), false) && means(
                        pb,
                        w.skip(k),
                        x is End,
                    );
                assert(goes(ts, u, w.take(k), Exit::Out));
                assert(goes(ts, t, w.skip(k), x));
                let n1 = choose|n: nat| walk(ts, u, w.take(k), n, Exit::Out);
                let n2 = choose|n: nat| walk(ts, t, w.skip(k), n, x);
                lemma_walk_frame(ts, after, mid, hi, t, w.skip(k), n2, x);
                lemma_patch_join(ts, f1.out, to, lo, mid, u, w.take(k), n1, w.skip(k), n2, x);
                assert(w.take(k) + w.skip(k) =~= w);
            }
        }
    }
}

/// What holds of a fragment once its dangling edges have been pointed at a
/// new split behind it that leads back to its start.
pub open spec fn looped(
    ts: Seq<Transition>,
    f: FragModel,
    lo: int,
    p: Pattern,
    table: Seq<Transition>,
    after: Seq<Transition>,
) -> bool {
    &&& ts.len() < usize::MAX
    &&& zone_ok(ts, f, lo, ts.len() as int, p)
    &&& table == ts.push(Transition::Split(Some(f.start), None))
    &&& after == patched(table, f.out, State(ts.len() as usize))
}

/// A way from the split of a loop spells a word of the pattern taken any
/// number of times.
proof fn lemma_star_fwd(
    ts: Seq<Transition>,
    f: FragModel,
    lo: int,
    p: Pattern,
    table: Seq<Transition>,
    after: Seq<Transition>,
    w: Seq<char>,
    n: nat,
    x: Exit,
)
    requires
        looped(ts, f, lo, p, table, after),
        zone_ok(table, f, lo, ts.len() as int, p),
        after[ts.len() as int] == Transition::Split(Some(f.start), None),
        walk(after, ts.len() as int, w, n, x),
    ensures
        x !is Accept,
        means_star(p, w, x is End),
    decreases n,
{
    let s = ts.len() as int;
    let to = State(s as usize);
    let u = f.start.0 as int;
    if n > 0 && walk(after, u, w, (n - 1) as nat, x) {
        lemma_patch_fwd(table, f.out, to, lo, s, u, w, (n - 1) as nat, x);
        if x is End && walk(table, u, w, (n - 1) as nat, x) {
            assert(goes(table, u, w, x));
        } else {
            let (k, n1, n2) = choose|k: int, n1: nat, n2: nat| #[trigger]
                cut(k, n1, n2) && 0 <= k <= w.len() && n - 1 == n1 + 1 + n2 && walk(
                    table,
                    u,
                    w.take(k),
                    n1,
                    Exit::Out,
                ) && walk(after, s, w.skip(k), n2, x);
            assert(goes(table, u, w.take(k), Exit::Out));
            assert(means(p, w.take(k), false));
            lemma_star_fwd(ts, f, lo, p, table, after, w.skip(k), n2, x);
            if k == 0 {
                assert(w.skip(0) =~= w);
            }
        }
    }
}

/// A word of the pattern taken any number of times is spelled by a way from
/// the split of a loop.
proof fn lemma_star_bwd(
    ts: Seq<Transition>,
    f: FragModel,
    lo: int,
    p: Pattern,
    table: Seq<Transition>,
    after: Seq<Transition>,
    w: Seq<char>,
    end: bool,
)
    requires
        looped(ts, f, lo, p, table, after),
        zone_ok(table, f, lo, ts.len() as int, p),
        after[ts.len() as int] == Transition::Split(Some(f.start), None),
        means_star(p, w, end),
    ensures
        goes(after, ts.len() as int, w, exit_of(end)),
    decreases w.len(),
{
    let s = ts.len() as int;
    let to = State(s as usize);
    let u = f.start.0 as int;
    let x = exit_of(end);
    if !end && w.len() == 0 {
        assert(walk(after, s, w, 0, x));
    } else if end && means(p, w, true) {
        assert(goes(table, u, w, Exit::End));
        let n = choose|n: nat| walk(table, u, w, n, Exit::End);
        lemma_patch_keep(table, f.out, to, lo, s, u, w, n);
        assert(walk(after, s, w, n + 1, x));
    } else {
        let k = choose|k: int|
            0 < k <= w.len() && means(p, #[trigger] w.take(k), false) && means_star(
                p,
                w.skip(k),
                end,
            );
        lemma_star_bwd(ts, f, lo, p, table, after, w.skip(k), end);
        let n2 = choose|n: nat| walk(after, s, w.skip(k), n, x);
        assert(goes(table, u, w.take(k), Exit::Out));
        let n1 = choose|n: nat| walk(table, u, w.take(k), n, Exit::Out);
        lemma_patch_join(table, f.out, to, lo, s, u, w.take(k), n1, w.skip(k), n2, x);
        assert(w.take(k) + w.skip(k) =~= w);
        assert(walk(after, s, w, n1 + 1 + n2 + 1, x));
    }
}

/// The zone of a loop: that of the fragment with the new split, which alone
/// dangles.
proof fn lemma_loop_zone(
    ts: Seq<Transition>,
    f: FragModel,
    lo: int,
    p: Pattern,
    table: Seq<Transition>,
    after: Seq<Transition>,
)
    requires
        looped(ts, f, lo, p, table, after),
    ensures
        zone_ok(table, f, lo, ts.len() as int, p),
        patch_zone(table, f.out, State(ts.len() as usize), lo, ts.len() as int),
        after[ts.len() as int] == Transition::Split(Some(f.start), None),
        closed(after, lo, ts.len() as int + 1),
        dangling(after, lo, ts.len() as int + 1, seq![State(ts.len() as usize)]),
{
    let s = ts.len() as int;
    let to = State(s as usize);
    lemma_zone_frame(ts, table, f, lo, s, p);
    assert(!f.out.contains(to)) by {
        if f.out.contains(to) {
            let i = choose|i: int| 0 <= i < f.out.len() && f.out[i] == to;
            assert(lo <= f.out[i].0 < s);
        }
    }
    assert(!f.out.contains(State(0usize)));
    let only = seq![to];
    assert(only[0] == to);
    assert forall|v: int| lo <= v < s + 1 implies match #[trigger] after[v] {
        Transition::Label(_, e) => lo <= e.0 < s + 1,
        Transition::Split(a, b) => {
            &&& a matches Some(x) ==> x.0 == 0 || lo <= x.0 < s + 1
            &&& b matches Some(y) ==> lo <= y.0 < s + 1
        },
        _ => false,
    } by {
        if v < s {
            let t = table[v];
            assert(match t {
                Transition::Label(_, e) => lo <= e.0 < s,
                Transition::Split(a, b) => {
                    &&& a matches Some(x) ==> x.0 == 0 || lo <= x.0 < s
                    &&& b matches Some(y) ==> lo <= y.0 < s
                },
                _ => false,
            });
        }
    }
    assert forall|v: int| lo <= v < s + 1 implies (#[trigger] dangles(after, v) <==> only.contains(
        State(v as usize),
    )) by {
        if v < s {
            assert(dangles(table, v) <==> f.out.contains(State(v as usize)));
        }
    }
}

/// The fragment of a pattern taken any number of times.
pub proof fn lemma_sem_star(ts: Seq<Transition>, f: FragModel, lo: int, p: Pattern)
    requires
        ts.len() < usize::MAX,
        zone_ok(ts, f, lo, ts.len() as int, p),
    ensures
        zone_ok(
            patched(
                ts.push(Transition::Split(Some(f.start), None)),
                f.out,
                State(ts.len() as usize),
            ),
            FragModel { start: State(ts.len() as usize), out: seq![State(ts.len() as usize)] },
            lo,
            ts.len() as int + 1,
            Pattern::Star(Box::new(p)),
        ),
{
    let s = ts.len() as int;
    let table = ts.push(Transition::Split(Some(f.start), None));
    let after = patched(table, f.out, State(s as usize));
    let whole = Pattern::Star(Box::new(p));
    lemma_loop_zone(ts, f, lo, p, table, after);
    assert forall|w: Seq<char>, x: Exit| #[trigger]
        goes(after, s, w, x) <==> (x !is Accept && means(whole, w, x is End)) by {
        if goes(after, s, w, x) {
            let n = choose|n: nat| walk(after, s, w, n, x);
            lemma_star_fwd(ts, f, lo, p, table, after, w, n, x);
        }
        if x !is Accept && means(whole, w, x is End) {
            lemma_star_bwd(ts, f, lo, p, table, after, w, x is End);
        }
    }
}

/// The fragment of a pattern taken once or more often.
pub proof fn lemma_sem_plus(ts: Seq<Transition>, f: FragModel, lo: int, p: Pattern)
    requires
        ts.len() < usize::MAX,
        zone_ok(ts, f, lo, ts.len() as int, p),
    ensures
        zone_ok(
            patched(
                ts.push(Transition::Split(Some(f.start), None)),
                f.out,
                State(ts.len() as usize),
            ),
            FragModel { start: f.start, out: seq![State(ts.len() as usize)] },
            lo,
            ts.len() as int + 1,
            Pattern::Plus(Box::new(p)),
        ),
{
    let s = ts.len() as int;
    let to = State(s as usize);
    let u = f.start.0 as int;
    let table = ts.push(Transition::Split(Some(f.start), None));
    let after = patched(table, f.out, to);
    let whole = Pattern::Plus(Box::new(p));
    lemma_loop_zone(ts, f, lo, p, table, after);
    assert forall|w: Seq<char>, x: Exit| #[trigger]
        goes(after, u, w, x) <==> (x !is Accept && means(whole, w, x is End)) by {
        if goes(after, u, w, x) {
            let n = choose|n: nat| walk(after, u, w, n, x);
            lemma_patch_fwd(table, f.out, to, lo, s, u, w, n, x);
            if x is End && walk(table, u, w, n, x) {
                assert(goes(table, u, w, x));
            } else {
                let (k, n1, n2) = choose|k: int, n1: nat, n2: nat| #[trigger]
                    cut(k, n1, n2) && 0 <= k <= w.len() && n == n1 + 1 + n2 && walk(
                        table,
                        u,
                        w.take(k),
                        n1,
                        Exit::Out,
                    ) && walk(after, s, w.skip(k), n2, x);
                assert(goes(table, u, w.take(k), Exit::Out));
                assert(means(p, w.take(k), false));
                lemma_star_fwd(ts, f, lo, p, table, after, w.skip(k), n2, x);
            }
        }
        if x !is Accept && means(whole, w, x is End) {
            if x is End && means(p, w, true) {
                assert(goes(table, u, w, Exit::End));
                let n = choose|n: nat| walk(table, u, w, n, Exit::End);
                lemma_patch_keep(table, f.out, to, lo, s, u, w, n);
            } else {
                let k = choose|k: int|
                    0 <= k <= w.len() && means(p, #[trigger] w.take(k), false) && means_star(
                        p,
                        w.skip(k),
                        x is End,
                    );
                lemma_star_bwd(ts, f, lo, p, table, after, w.skip(k), x is End);
                let n2 = choose|n: nat| walk(after, s, w.skip(k), n, x);
                assert(goes(table, u, w.take(k), Exit::Out));
                let n1 = choose|n: nat| walk(table, u, w.take(k), n, Exit::Out);
                lemma_patch_join(table, f.out, to, lo, s, u, w.take(k), n1, w.skip(k), n2, x);
                assert(w.take(k) + w.skip(k) =~= w);
            }
        }
    }
}

/// Where the zones of the fragments start, after a token: a new operand
/// starts its zone at the end of the table, and an operator joins the zones
/// of its operands.
pub open spec fn lows_step(lows: Seq<int>, len: int, token: Token) -> Seq<int> {
    match token {
        Token::Lit(_) | Token::Eof => lows.push(len),
        Token::Concat | Token::Union => lows.drop_last(),
        _ => lows,
    }
}

/// Where the zones of the fragments on the stack start, after the first `k`
/// tokens.
pub open spec fn lows(tokens: Seq<Token>, k: nat) -> Seq<int>
    decreases k,
{
    if k == 0 {
        Seq::empty()
    } else {
        match builder_run(tokens, (k - 1) as nat) {
            Ok(b) => lows_step(lows(tokens, (k - 1) as nat), b.ts.len() as int, tokens[k - 1]),
            Err(_) => Seq::empty(),
        }
    }
}

/// Where the zone of the fragment at place `a` of the stack ends: where the
/// next one starts, or at the end of the table.
pub open spec fn high(lows: Seq<int>, len: int, a: int) -> int {
    if a + 1 < lows.len() {
        lows[a + 1]
    } else {
        len
    }
}

/// What the construction means: the zones of the fragments on the stack
/// take up the table behind its two initial states, one after the other,
/// and the ways through each fragment are those of its pattern.
pub open spec fn means_ok(b: Builder, lows: Seq<int>, pats: Seq<Pattern>) -> bool {
    &&& lows.len() == b.stack.len()
    &&& pats.len() == b.stack.len()
    &&& 2 <= b.ts.len() <= usize::MAX
    &&& b.ts[0] is Eof
    &&& b.ts[1] is Accept
    &&& b.stack.len() == 0 ==> b.ts.len() == 2
    &&& b.stack.len() > 0 ==> lows[0] == 2
    &&& forall|a: int|
        0 <= a < b.stack.len() ==> zone_ok(
            b.ts,
            #[trigger] b.stack[a],
            lows[a],
            high(lows, b.ts.len() as int, a),
            pats[a],
        )
}

/// Outside the zone of the fragment that is patched the table stays as it
/// is.
proof fn lemma_patched_outside(ts: Seq<Transition>, out: Seq<State>, to: State, lo: int, hi: int, v: int)
    requires
        forall|i: int| 0 <= i < out.len() ==> lo <= (#[trigger] out[i]).0 < hi,
        0 <= v < ts.len() <= usize::MAX,
        !(lo <= v < hi),
    ensures
        patched(ts, out, to)[v] == ts[v],
{
    if out.contains(State(v as usize)) {
        let i = choose|i: int| 0 <= i < out.len() && out[i] == State(v as usize);
        assert(lo <= out[i].0 < hi);
    }
}

/// One token keeps the meaning of the construction.
#[verifier::rlimit(60)]
#[verifier::spinoff_prover]
pub proof fn lemma_means_step(b: Builder, lows: Seq<int>, pats: Seq<Pattern>, token: Token)
    requires
        means_ok(b, lows, pats),
        builder_step(b, token) is Ok,
        builder_step(b, token)->Ok_0.ts.len() <= usize::MAX,
    ensures
        pattern_step(pats, token) is Some,
        means_ok(
            builder_step(b, token)->Ok_0,
            lows_step(lows, b.ts.len() as int, token),
            pattern_step(pats, token)->0,
        ),
{
    let r = builder_step(b, token)->Ok_0;
    let n = b.stack.len() as int;
    let len = b.ts.len() as int;
    let s = State(len as usize);
    let lows2 = lows_step(lows, len, token);
    let pats2 = pattern_step(pats, token)->0;
    assert forall|a: int| 0 <= a < n implies closed(b.ts, lows[a], high(lows, len, a)) by {
        assert(zone_ok(b.ts, b.stack[a], lows[a], high(lows, len, a), pats[a]));
    }
    match token {
        Token::Lit(l) => {
            lemma_sem_lit(b.ts, l);
            assert forall|a: int| 0 <= a < r.stack.len() implies zone_ok(
                r.ts,
                #[trigger] r.stack[a],
                lows2[a],
                high(lows2, r.ts.len() as int, a),
                pats2[a],
            ) by {
                if a < n {
                    assert(zone_ok(b.ts, b.stack[a], lows[a], high(lows, len, a), pats[a]));
                    lemma_zone_frame(b.ts, r.ts, b.stack[a], lows[a], high(lows, len, a), pats[a]);
                }
            }
        },
        Token::Eof => {
            lemma_sem_end(b.ts);
            assert forall|a: int| 0 <= a < r.stack.len() implies zone_ok(
                r.ts,
                #[trigger] r.stack[a],
                lows2[a],
                high(lows2, r.ts.len() as int, a),
                pats2[a],
            ) by {
                if a < n {
                    assert(zone_ok(b.ts, b.stack[a], lows[a], high(lows, len, a), pats[a]));
                    lemma_zone_frame(b.ts, r.ts, b.stack[a], lows[a], high(lows, len, a), pats[a]);
                }
            }
        },
        Token::Optional => {
            let f = b.stack[n - 1];
            assert(zone_ok(b.ts, f, lows[n - 1], len, pats[n - 1]));
            lemma_sem_opt(b.ts, f, lows[n - 1], pats[n - 1]);
            assert forall|a: int| 0 <= a < r.stack.len() implies zone_ok(
                r.ts,
                #[trigger] r.stack[a],
                lows2[a],
                high(lows2, r.ts.len() as int, a),
                pats2[a],
            ) by {
                if a < n - 1 {
                    assert(zone_ok(b.ts, b.stack[a], lows[a], high(lows, len, a), pats[a]));
                    lemma_zone_frame(b.ts, r.ts, b.stack[a], lows[a], high(lows, len, a), pats[a]);
                }
            }
        },
        Token::KleeneS | Token::KleeneP => {
            let f = b.stack[n - 1];
            let lo = lows[n - 1];
            assert(zone_ok(b.ts, f, lo, len, pats[n - 1]));
            if token is KleeneS {
                lemma_sem_star(b.ts, f, lo, pats[n - 1]);
            } else {
                lemma_sem_plus(b.ts, f, lo, pats[n - 1]);
            }
            let table = b.ts.push(Transition::Split(Some(f.start), None));
            assert forall|a: int| 0 <= a < r.stack.len() implies zone_ok(
                r.ts,
                #[trigger] r.stack[a],
                lows2[a],
                high(lows2, r.ts.len() as int, a),
                pats2[a],
            ) by {
                if a < n - 1 {
                    let low = lows[a];
                    let up = high(lows, len, a);
                    assert(zone_ok(b.ts, b.stack[a], low, up, pats[a]));
                    assert(closed(b.ts, lows[a + 1], high(lows, len, a + 1)));
                    lemma_zone_below(lows, len, n, a);
                    assert forall|v: int| low <= v < up implies #[trigger] r.ts[v] == b.ts[v] by {
                        lemma_patched_outside(table, f.out, s, lo, len, v);
                    }
                    lemma_patched_outside(table, f.out, s, lo, len, 0);
                    lemma_zone_frame(b.ts, r.ts, b.stack[a], low, up, pats[a]);
                }
            }
        },
        Token::Concat => {
            let f1 = b.stack[n - 2];
            let f2 = b.stack[n - 1];
            let lo = lows[n - 2];
            let mid = lows[n - 1];
            assert(zone_ok(b.ts, f1, lo, mid, pats[n - 2]));
            assert(zone_ok(b.ts, f2, mid, len, pats[n - 1]));
            lemma_sem_cat(b.ts, f1, lo, pats[n - 2], f2, mid, len, pats[n - 1]);
            assert forall|a: int| 0 <= a < r.stack.len() implies zone_ok(
                r.ts,
                #[trigger] r.stack[a],
                lows2[a],
                high(lows2, r.ts.len() as int, a),
                pats2[a],
            ) by {
                if a < n - 2 {
                    let low = lows[a];
                    let up = high(lows, len, a);
                    assert(zone_ok(b.ts, b.stack[a], low, up, pats[a]));
                    lemma_zone_below(lows, len, n, a);
                    lemma_zone_below(lows, len, n, n - 2);
                    assert forall|v: int| low <= v < up implies #[trigger] r.ts[v] == b.ts[v] by {
                        lemma_patched_outside(b.ts, f1.out, f2.start, lo, mid, v);
                    }
                    lemma_patched_outside(b.ts, f1.out, f2.start, lo, mid, 0);
                    lemma_zone_frame(b.ts, r.ts, b.stack[a], low, up, pats[a]);
                }
            }
        },
        Token::Union => {
            let f1 = b.stack[n - 2];
            let f2 = b.stack[n - 1];
            let lo = lows[n - 2];
            let mid = lows[n - 1];
            assert(zone_ok(b.ts, f1, lo, mid, pats[n - 2]));
            assert(zone_ok(b.ts, f2, mid, len, pats[n - 1]));
            lemma_sem_alt(b.ts, f1, lo, pats[n - 2], f2, mid, pats[n - 1]);
            assert forall|a: int| 0 <= a < r.stack.len() implies zone_ok(
                r.ts,
                #[trigger] r.stack[a],
                lows2[a],
                high(lows2, r.ts.len() as int, a),
                pats2[a],
            ) by {
                if a < n - 2 {
                    assert(zone_ok(b.ts, b.stack[a], lows[a], high(lows, len, a), pats[a]));
                    lemma_zone_frame(b.ts, r.ts, b.stack[a], lows[a], high(lows, len, a), pats[a]);
                }
            }
        },
        _ => {},
    }
}

/// The zones lie one after the other: a zone ends no later than a later one
/// starts.
proof fn lemma_zone_below(lows: Seq<int>, len: int, n: int, a: int)
    requires
        lows.len() == n,
        0 <= a < n,
        forall|c: int| 0 <= c < n ==> lows[c] <= #[trigger] high(lows, len, c),
    ensures
        forall|c: int| a < c < n ==> high(lows, len, a) <= #[trigger] lows[c],
        high(lows, len, a) <= len,
    decreases n - a,
{
    if a + 1 < n {
        lemma_zone_below(lows, len, n, a + 1);
        assert(lows[a + 1] <= high(lows, len, a + 1));
    }
}

/// A program whose operators all find their operands has a pattern for
/// each operand on the stack.
pub proof fn lemma_depth_patterns(tokens: Seq<Token>, k: nat)
    requires
        depth(tokens, k) is Some,
    ensures
        patterns(tokens, k) matches Some(stack) && stack.len() == depth(tokens, k)->0,
    decreases k,
{
    if k > 0 {
        lemma_depth_patterns(tokens, (k - 1) as nat);
    }
}

/// The construction means what its tokens say, after any number of them.
pub proof fn lemma_means_run(tokens: Seq<Token>, k: nat)
    requires
        k <= tokens.len(),
        k + 2 <= usize::MAX,
        builder_run(tokens, k) is Ok,
    ensures
        patterns(tokens, k) is Some,
        means_ok(builder_run(tokens, k)->Ok_0, lows(tokens, k), patterns(tokens, k)->0),
    decreases k,
{
    if k > 0 {
        let j = (k - 1) as nat;
        lemma_means_run(tokens, j);
        lemma_builder_run_ok(tokens, k);
        lemma_means_step(builder_run(tokens, j)->Ok_0, lows(tokens, j), patterns(tokens, j)->0, tokens[k - 1]);
    }
}

/// No edge of the table dangles.
pub open spec fn solid(ts: Seq<Transition>) -> bool {
    forall|v: int| 0 <= v < ts.len() ==> !#[trigger] dangles(ts, v)
}

/// In the automaton of a program of one expression no edge dangles, and the
/// ways from its start are those of its pattern: a way ends at the accepting
/// state when its word is matched by the pattern as a whole, and at the
/// end-of-input state when the pattern comes to an end-of-input sign after
/// its word.
pub proof fn lemma_compiled_ways(tokens: Seq<Token>)
    requires
        tokens.len() + 2 <= usize::MAX,
        is_expression(tokens),
    ensures
        compile_spec(tokens) is Ok,
        pattern_of(tokens) is Some,
        solid(compile_spec(tokens)->Ok_0.ts),
        forall|w: Seq<char>, x: Exit| #[trigger]
            goes(
                compile_spec(tokens)->Ok_0.ts,
                compile_spec(tokens)->Ok_0.start.0 as int,
                w,
                x,
            ) <==> (x !is Out && means(pattern_of(tokens)->0, w, x is End)),
{
    super::thompson::lemma_expression_compiles(tokens);
    lemma_depth_patterns(tokens, tokens.len());
    lemma_means_run(tokens, tokens.len());
    let b = builder_run(tokens, tokens.len())->Ok_0;
    super::thompson::lemma_depth_builds(tokens, tokens.len());
    let a = compile_spec(tokens)->Ok_0;
    let p = pattern_of(tokens)->0;
    let f = b.stack[0];
    let len = b.ts.len() as int;
    let to = State(1usize);
    let u = f.start.0 as int;
    assert(zone_ok(b.ts, f, 2, len, p));
    assert(a.ts == patched(b.ts, f.out, to));
    assert(patch_zone(b.ts, f.out, to, 2, len));
    assert(!f.out.contains(State(0usize)));
    assert(!f.out.contains(to)) by {
        if f.out.contains(to) {
            let i = choose|i: int| 0 <= i < f.out.len() && f.out[i] == to;
            assert(2 <= f.out[i].0);
        }
    }
    assert(a.ts[1] is Accept);
    assert(a.ts[0] is Eof);
    assert forall|v: int| 0 <= v < a.ts.len() implies !#[trigger] dangles(a.ts, v) by {
        if v >= 2 {
            assert(dangles(b.ts, v) <==> f.out.contains(State(v as usize)));
        }
    }
    assert forall|w: Seq<char>, x: Exit| #[trigger]
        goes(a.ts, u, w, x) <==> (x !is Out && means(p, w, x is End)) by {
        if goes(a.ts, u, w, x) {
            let n = choose|n: nat| walk(a.ts, u, w, n, x);
            lemma_patch_fwd(b.ts, f.out, to, 2, len, u, w, n, x);
            if x is End && walk(b.ts, u, w, n, x) {
                assert(goes(b.ts, u, w, x));
            } else {
                let (k, n1, n2) = choose|k: int, n1: nat, n2: nat| #[trigger]
                    cut(k, n1, n2) && 0 <= k <= w.len() && n == n1 + 1 + n2 && walk(
                        b.ts,
                        u,
                        w.take(k),
                        n1,
                        Exit::Out,
                    ) && walk(a.ts, 1, w.skip(k), n2, x);
                assert(goes(b.ts, u, w.take(k), Exit::Out));
                assert(w.take(w.len() as int) =~= w);
            }
        }
        if x !is Out && means(p, w, x is End) {
            if x is End {
                assert(goes(b.ts, u, w, Exit::End));
                let n = choose|n: nat| walk(b.ts, u, w, n, Exit::End);
                lemma_patch_keep(b.ts, f.out, to, 2, len, u, w, n);
            } else {
                assert(goes(b.ts, u, w, Exit::Out));
                let n = choose|n: nat| walk(b.ts, u, w, n, Exit::Out);
                let none = Seq::<char>::empty();
                assert(walk(a.ts, 1, none, 0, x));
                lemma_patch_join(b.ts, f.out, to, 2, len, u, w, n, none, 0, x);
                assert(w + none =~= w);
            }
        }
    }
}

/// A way through a table without dangling edges is a run of the automaton:
/// from a state that the automaton can be in, it leads to the accepting or
/// the end-of-input state that it ends at, in the same group.
pub proof fn lemma_walk_reach(
    a: Automaton,
    input: Seq<char>,
    j: nat,
    u: int,
    g: Group,
    w: Seq<char>,
    n: nat,
    x: Exit,
)
    requires
        a.reach(input, j, u, g),
        walk(a.ts, u, w, n, x),
        x !is Out,
        j + w.len() <= input.len(),
        input.subrange(j as int, j as int + w.len()) == w,
    ensures
        exists|v: int| #[trigger]
            a.reach(input, (j + w.len()) as nat, v, g) && a.has(v) && if x is Accept {
                a.ts[v] is Accept
            } else {
                a.ts[v] is Eof
            },
    decreases n,
{
    match a.ts[u] {
        Transition::Label(l, e) => {
            let next: nat = j + 1;
            assert(input[j as int] == w[0]);
            assert(a.moves(input, j, u, g, next, e.0 as int, g));
            super::sound::lemma_reach_move(a, input, j, u, g, next, e.0 as int, g);
            assert(input.subrange(next as int, next as int + w.skip(1).len()) =~= w.skip(1));
            lemma_walk_reach(a, input, next, e.0 as int, g, w.skip(1), (n - 1) as nat, x);
        },
        Transition::Split(p, q) => {
            let first = p->0;
            let second = q->0;
            let t = if p is Some && n > 0 && walk(a.ts, first.0 as int, w, (n - 1) as nat, x) {
                first
            } else {
                second
            };
            assert(a.moves(input, j, u, g, j, t.0 as int, g));
            super::sound::lemma_reach_move(a, input, j, u, g, j, t.0 as int, g);
            lemma_walk_reach(a, input, j, t.0 as int, g, w, (n - 1) as nat, x);
        },
        _ => {
            assert(a.reach(input, (j + w.len()) as nat, u, g));
        },
    }
}

/// A run of an automaton without groups and without dangling edges is a
/// way through its table: a way from a state that the automaton can be in
/// goes on from a way from the start that spells what has been consumed.
pub proof fn lemma_reach_walk(
    a: Automaton,
    input: Seq<char>,
    k: nat,
    n: nat,
    s: int,
    g: Group,
    rest: Seq<char>,
    x: Exit,
)
    requires
        solid(a.ts),
        forall|i: int| 0 <= i < a.ts.len() ==> !((#[trigger] a.ts[i]) is Group),
        a.reach_in(input, k, n, s, g),
        goes(a.ts, s, rest, x),
    ensures
        k <= input.len(),
        goes(a.ts, a.start.0 as int, input.take(k as int) + rest, x),
    decreases n,
{
    if n == 0 {
        assert(input.take(0) + rest =~= rest);
    } else {
        let (j, u, gu) = choose|j: nat, u: int, gu: Group| #[trigger]
            a.moves(input, j, u, gu, k, s, g) && a.reach_in(input, j, (n - 1) as nat, u, gu);
        let m = choose|m: nat| walk(a.ts, s, rest, m, x);
        assert(!dangles(a.ts, u));
        assert(!(a.ts[u] is Group));
        if j == k {
            assert(walk(a.ts, u, rest, m + 1, x));
            lemma_reach_walk(a, input, j, (n - 1) as nat, u, gu, rest, x);
        } else {
            let c = input[j as int];
            let more = seq![c] + rest;
            assert(more.skip(1) =~= rest);
            assert(walk(a.ts, u, more, m + 1, x));
            lemma_reach_walk(a, input, j, (n - 1) as nat, u, gu, more, x);
            assert(input.take(j as int) + more =~= input.take(k as int) + rest);
        }
    }
}

/// What the automaton of a pattern accepts is what the pattern means: the
/// automaton accepts the first `k` characters of an input if and only if
/// they are matched by the pattern as a whole; and the whole input leads to
/// the end-of-input state if and only if the pattern comes to an
/// end-of-input sign after it.
pub proof fn lemma_compile_means(tokens: Seq<Token>, input: Seq<char>, k: nat)
    requires
        tokens.len() + 2 <= usize::MAX,
        is_expression(tokens),
        k <= input.len(),
    ensures
        compile_spec(tokens) is Ok,
        pattern_of(tokens) is Some,
        compile_spec(tokens)->Ok_0.accepted(input, k) <==> means(
            pattern_of(tokens)->0,
            input.take(k as int),
            false,
        ),
        compile_spec(tokens)->Ok_0.ended(input) <==> means(pattern_of(tokens)->0, input, true),
{
    lemma_compiled_ways(tokens);
    super::laws::lemma_compiled_shape(tokens);
    let a = compile_spec(tokens)->Ok_0;
    let p = pattern_of(tokens)->0;
    let u = a.start.0 as int;
    let none = Seq::<char>::empty();
    assert(a.reach_in(input, 0, 0, u, None));
    assert(a.reach(input, 0, u, None));
    assert forall|v: int| a.has(v) && a.ts[v] is Accept implies v == 1 by {
        if v >= 2 {
            assert(a.ts[v] is Label || a.ts[v] is Split);
        }
    }
    assert forall|v: int| a.has(v) && a.ts[v] is Eof implies v == 0 by {
        if v >= 2 {
            assert(a.ts[v] is Label || a.ts[v] is Split);
        }
    }
    // The accepted prefixes.
    let w = input.take(k as int);
    if a.accepted(input, k) {
        let g = choose|g: Group| a.accepts_at(input, k, g);
        let n = choose|n: nat| a.reach_in(input, k, n, 1, g);
        assert(walk(a.ts, 1, none, 0, Exit::Accept));
        lemma_reach_walk(a, input, k, n, 1, g, none, Exit::Accept);
        assert(w + none =~= w);
        assert(goes(a.ts, u, w, Exit::Accept));
    }
    if means(p, w, false) {
        assert(goes(a.ts, u, w, Exit::Accept));
        let n = choose|n: nat| walk(a.ts, u, w, n, Exit::Accept);
        assert(input.subrange(0, 0int + w.len()) =~= w);
        lemma_walk_reach(a, input, 0, u, None, w, n, Exit::Accept);
        assert(a.accepts_at(input, k, None));
    }
    // The end of input.
    let len = input.len();
    if a.ended(input) {
        let g = choose|g: Group| a.ends_at(input, g);
        let n = choose|n: nat| a.reach_in(input, len, n, 0, g);
        assert(walk(a.ts, 0, none, 0, Exit::End));
        lemma_reach_walk(a, input, len, n, 0, g, none, Exit::End);
        assert(input.take(len as int) + none =~= input);
        assert(goes(a.ts, u, input, Exit::End));
    }
    if means(p, input, true) {
        assert(goes(a.ts, u, input, Exit::End));
        let n = choose|n: nat| walk(a.ts, u, input, n, Exit::End);
        assert(input.subrange(0, 0int + input.len()) =~= input);
        lemma_walk_reach(a, input, 0, u, None, input, n, Exit::End);
        assert(a.ends_at(input, None));
    }
}

/// What the automaton of a source text accepts is what its pattern means.
pub proof fn lemma_source_means(source: Seq<char>, input: Seq<char>, k: nat)
    requires
        crate::parse::postfix::parse_spec(crate::parse::tokenize(source)) is Ok,
        crate::parse::postfix::parse_spec(crate::parse::tokenize(source))->Ok_0.len() + 2
            <= usize::MAX,
        k <= input.len(),
    ensures
        ({
            let program = crate::parse::postfix::parse_spec(crate::parse::tokenize(source))->Ok_0;
            &&& compile_spec(program) is Ok
            &&& pattern_of(program) is Some
            &&& compile_spec(program)->Ok_0.accepted(input, k) <==> means(
                pattern_of(program)->0,
                input.take(k as int),
                false,
            )
            &&& compile_spec(program)->Ok_0.ended(input) <==> means(
                pattern_of(program)->0,
                input,
                true,
            )
        }),
{
    let program = crate::parse::postfix::parse_spec(crate::parse::tokenize(source))->Ok_0;
    crate::parse::postfix::lemma_parse_expression(crate::parse::tokenize(source));
    lemma_compile_means(program, input, k);
}

/// The patterns of the first `k` tokens depend on these alone.
pub proof fn lemma_patterns_prefix(a: Seq<Token>, b: Seq<Token>, k: nat)
    requires
        k <= a.len(),
        k <= b.len(),
        a.take(k as int) == b.take(k as int),
    ensures
        patterns(a, k) == patterns(b, k),
    decreases k,
{
    if k > 0 {
        assert(a.take(k - 1) == a.take(k as int).take(k - 1));
        assert(b.take(k - 1) == b.take(k as int).take(k - 1));
        lemma_patterns_prefix(a, b, (k - 1) as nat);
        assert(a[k - 1] == a.take(k as int)[k - 1]);
        assert(b[k - 1] == b.take(k as int)[k - 1]);
    }
}

/// The program of a pattern that is terminated by the end-of-input sign is
/// one expression, whose pattern is the pattern and then the end of input.
pub proof fn lemma_terminated_pattern(body: Seq<Token>)
    requires
        is_expression(body),
    ensures
        is_expression(body + seq![Token::Eof, Token::Concat]),
        pattern_of(body) is Some,
        pattern_of(body + seq![Token::Eof, Token::Concat]) == Some(
            Pattern::Cat(Box::new(pattern_of(body)->0), Box::new(Pattern::End)),
        ),
{
    let tail = seq![Token::Eof, Token::Concat];
    let tokens = body + tail;
    let n = body.len();
    lemma_depth_patterns(body, n);
    assert(tokens.take(n as int) =~= body.take(n as int));
    lemma_patterns_prefix(tokens, body, n);
    crate::parse::postfix::lemma_depth_prefix(tokens, body, n);
    assert(tokens[n as int] == Token::Eof);
    assert(tokens[n as int + 1] == Token::Concat);
    assert(depth(tokens, n + 1) == Some(2int));
    assert(depth(tokens, n + 2) == Some(1int));
    let stack = patterns(body, n)->0;
    let one = stack.push(Pattern::End);
    assert(patterns(tokens, n + 1) == Some(one));
    assert(one.take(0) =~= Seq::<Pattern>::empty());
}

/// End-of-input exclusivity, in what the pattern means: a pattern that is
/// terminated by the end-of-input sign gives a match if and only if the
/// whole input is matched by the pattern before the sign, and then the one
/// match of the whole length of the input.
pub proof fn lemma_terminated_means(body: Seq<Token>, input: Seq<char>)
    requires
        body.len() + 4 <= usize::MAX,
        crate::text::utf8_len(input) <= usize::MAX,
        is_expression(body),
    ensures
        ({
            let tokens = body + seq![Token::Eof, Token::Concat];
            let q = pattern_of(body)->0;
            let r = compile_spec(tokens)->Ok_0.matches(input);
            &&& compile_spec(tokens) is Ok
            &&& pattern_of(body) is Some
            &&& r.len() <= 1
            &&& r.len() == 1 <==> means(q, input, false) || means(q, input, true)
            &&& r.len() == 1 ==> r[0].size() == crate::text::utf8_len(input)
        }),
{
    let tokens = body + seq![Token::Eof, Token::Concat];
    lemma_terminated_pattern(body);
    lemma_compile_means(tokens, input, input.len());
    super::laws::lemma_eof_exclusive(body, input);
    let q = pattern_of(body)->0;
    let whole = Pattern::Cat(Box::new(q), Box::new(Pattern::End));
    assert(input.take(input.len() as int) =~= input);
    if means(whole, input, true) && !means(q, input, true) {
        let k = choose|k: int|
            0 <= k <= input.len() && means(q, #[trigger] input.take(k), false) && means(
                Pattern::End,
                input.skip(k),
                true,
            );
        assert(input.take(k) =~= input);
    }
    if means(q, input, false) {
        assert(input.skip(input.len() as int) =~= Seq::<char>::empty());
        assert(means(Pattern::End, input.skip(input.len() as int), true));
        assert(means(q, input.take(input.len() as int), false));
    }
}

/// The matches of the automaton of a pattern, in what the pattern means: if
/// a prefix of the input is matched by the pattern as a whole, the first
/// match is that of the longest such prefix; if the pattern comes to an
/// end-of-input sign after the whole input, the last match is that of the
/// whole input; and there are no other matches.
pub proof fn lemma_matches_mean(tokens: Seq<Token>, input: Seq<char>)
    requires
        tokens.len() + 2 <= usize::MAX,
        crate::text::utf8_len(input) <= usize::MAX,
        is_expression(tokens),
    ensures
        ({
            let p = pattern_of(tokens)->0;
            let r = compile_spec(tokens)->Ok_0.matches(input);
            let some = exists|k: nat| k <= input.len() && means(p, #[trigger] input.take(k as int), false);
            let end = means(p, input, true);
            &&& compile_spec(tokens) is Ok
            &&& pattern_of(tokens) is Some
            &&& r.len() == (if some {
                1nat
            } else {
                0nat
            }) + (if end {
                1nat
            } else {
                0nat
            })
            &&& forall|i: int| 0 <= i < r.len() ==> (#[trigger] r[i]) is NoGroup
            &&& some ==> exists|j: nat|
                j <= input.len() && r[0].size() == crate::text::utf8_len(
                    #[trigger] input.take(j as int),
                ) && means(p, input.take(j as int), false)
            &&& forall|k: nat|
                k <= input.len() && means(p, #[trigger] input.take(k as int), false) ==> r[0].size()
                    >= crate::text::utf8_len(input.take(k as int))
            &&& end ==> r.last().size() == crate::text::utf8_len(input)
        }),
{
    let a = compile_spec(tokens)->Ok_0;
    let p = pattern_of(tokens)->0;
    let r = a.matches(input);
    lemma_compile_means(tokens, input, 0);
    super::laws::lemma_compiled_shape(tokens);
    super::laws::lemma_compiled_matches(tokens, input);
    super::sound::lemma_matches_report(a, input);
    let m = choose|m: int|
        0 <= m <= r.len() && #[trigger] a.accept_report(input, r.take(m)) && a.end_report(
            input,
            r.skip(m),
        );
    let hits = r.take(m);
    let ends = r.skip(m);
    super::laws::lemma_plain_accept_unique(a, input, hits, hits);
    let some = exists|k: nat| k <= input.len() && means(p, #[trigger] input.take(k as int), false);
    if some {
        let k = choose|k: nat| k <= input.len() && means(p, #[trigger] input.take(k as int), false);
        lemma_compile_means(tokens, input, k);
        assert(a.accepted(input, k));
        assert(hits.len() == 1);
        assert(hits[0] == r[0]);
        let j = choose|j: nat|
            j <= input.len() && hits[0].size() == crate::text::utf8_len(input.take(j as int))
                && #[trigger] a.accepts_at(input, j, hits[0].group());
        assert(a.accepted(input, j));
        lemma_compile_means(tokens, input, j);
    } else if hits.len() > 0 {
        let j = choose|j: nat|
            j <= input.len() && hits[0].size() == crate::text::utf8_len(input.take(j as int))
                && #[trigger] a.accepts_at(input, j, hits[0].group());
        assert(a.accepted(input, j));
        lemma_compile_means(tokens, input, j);
        assert(means(p, input.take(j as int), false));
    }
    assert forall|k: nat|
        k <= input.len() && means(p, #[trigger] input.take(k as int), false) implies r[0].size()
        >= crate::text::utf8_len(input.take(k as int)) by {
        lemma_compile_means(tokens, input, k);
        assert(a.accepted(input, k));
        let x = choose|x: int|
            0 <= x < hits.len() && a.accepts_at(input, k, (#[trigger] hits[x]).group()) && hits[x].size()
                >= crate::text::utf8_len(input.take(k as int));
        assert(hits[0] == r[0]);
    }
    if means(p, input, true) {
        assert(ends[0] == r[m]);
    }
}

} // verus!
