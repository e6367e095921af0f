//! What a fused automaton accepts: what its parts accept, each in the group
//! of its label.

use vstd::prelude::*;
use super::meaning::{lemma_compile_means, means, pattern_of};
use super::model::{targets_within, Automaton};
use super::nfa::Transition;
use super::nfa_set::{fuse_spec, fuse_upto, fused, grouped, shift_transition, shifted};
use super::sound::lemma_reach_move;
use super::state::State;
use super::thompson::{builder_run, compile_spec, frag_ok};
use crate::language::{Group, Label};
use crate::parse::postfix::is_expression;
use crate::parse::Token;

verus! {

impl Automaton {
    /// The automaton is well formed, its accepting state accepts, its
    /// end-of-input state waits for the end of input, the two differ from
    /// each other and from the start, and no group marker leads to the
    /// accepting state.
    pub open spec fn tidy(self) -> bool {
        &&& self.wf()
        &&& self.ts[self.accept.0 as int] is Accept
        &&& self.ts[self.eof.0 as int] is Eof
        &&& self.start != self.accept
        &&& self.start != self.eof
        &&& self.eof != self.accept
        &&& forall|i: int|
            0 <= i < self.ts.len() ==> ((#[trigger] self.ts[i]) matches Transition::Group(_, e)
                ==> e != self.accept)
    }
}

impl super::nfa::NFA {
    /// Whether the automaton is tidy and has no group markers, so that it
    /// can be a part of a set that reports every label with its own longest
    /// prefix.
    pub fn is_tidy_and_plain(&self) -> (r: bool)
        ensures
            r == (self@.tidy() && self@.plain()),
    {
        if !self.is_well_formed() {
            return false;
        }
        let accepts = match self.transitions[self.accept.0] {
            Transition::Accept => true,
            _ => false,
        };
        let ends = match self.transitions[self.eof.0] {
            Transition::Eof => true,
            _ => false,
        };
        if !accepts || !ends || self.start.0 == self.accept.0 || self.start.0 == self.eof.0 || self.eof.0
            == self.accept.0 {
            return false;
        }
        let n = self.transitions.len();
        let mut i: usize = 0;
        while i < n
            invariant
                i <= n,
                n == self.transitions@.len(),
                forall|j: int| 0 <= j < i ==> !((#[trigger] self.transitions@[j]) is Group),
            decreases n - i,
        {
            match self.transitions[i] {
                Transition::Group(_, _) => {
                    assert(self@.ts[i as int] is Group);
                    return false;
                },
                _ => {},
            }
            i = i + 1;
        }
        assert forall|j: int| 0 <= j < self@.ts.len() implies ((#[trigger] self@.ts[j]) matches Transition::Group(
            _,
            e,
        ) ==> e != self@.accept) by {
            assert(!(self.transitions@[j] is Group));
        }
        true
    }
}

/// The accepting state is left by no move.
pub proof fn lemma_accept_rests(a: Automaton, input: Seq<char>, j: nat, gu: Group, k: nat, s: int, g: Group)
    requires
        a.tidy(),
    ensures
        !a.moves(input, j, a.accept.0 as int, gu, k, s, g),
{
}

/// The end-of-input state is left by no move.
pub proof fn lemma_eof_rests(a: Automaton, input: Seq<char>, j: nat, gu: Group, k: nat, s: int, g: Group)
    requires
        a.tidy(),
    ensures
        !a.moves(input, j, a.eof.0 as int, gu, k, s, g),
{
}

/// What is reached behind a group marker: the marker itself at the start,
/// and every state of the automaton that is reached from its start in the
/// group of the marker.
pub open spec fn grouped_at(a: Automaton, label: Label, input: Seq<char>, k: nat, v: int, g: Group) -> bool {
    ||| v == a.ts.len() && k == 0 && g is None
    ||| v < a.ts.len() && g == Some(label@) && a.reach(input, k, v, None)
}

/// Every state that is reached behind a group marker is reached in the
/// automaton itself.
pub proof fn lemma_grouped_sound(
    a: Automaton,
    label: Label,
    input: Seq<char>,
    k: nat,
    n: nat,
    v: int,
    g: Group,
)
    requires
        a.wf(),
        a.plain(),
        a.ts.len() < usize::MAX,
        grouped(a, label).reach_in(input, k, n, v, g),
    ensures
        grouped_at(a, label, input, k, v, g),
    decreases n,
{
    let b = grouped(a, label);
    if n == 0 {
    } else {
        let (j, u, gu) = choose|j: nat, u: int, gu: Group| #[trigger]
            b.moves(input, j, u, gu, k, v, g) && b.reach_in(input, j, (n - 1) as nat, u, gu);
        lemma_grouped_sound(a, label, input, j, (n - 1) as nat, u, gu);
        if u == a.ts.len() {
            assert(a.reach_in(input, 0, 0, a.start.0 as int, None));
        } else {
            assert(b.ts[u] == a.ts[u]);
            assert(targets_within(a.ts[u], a.ts.len() as int));
            assert(!(a.ts[u] is Group));
            assert(a.moves(input, j, u, None, k, v, None));
            lemma_reach_move(a, input, j, u, None, k, v, None);
        }
    }
}

/// Every state that is reached in an automaton is reached behind its group
/// marker, in the group of the marker.
pub proof fn lemma_grouped_complete(
    a: Automaton,
    label: Label,
    input: Seq<char>,
    k: nat,
    n: nat,
    v: int,
    g: Group,
)
    requires
        a.wf(),
        a.plain(),
        a.ts.len() < usize::MAX,
        a.reach_in(input, k, n, v, g),
    ensures
        grouped(a, label).reach(input, k, v, Some(label@)),
    decreases n,
{
    let b = grouped(a, label);
    let s = a.ts.len() as int;
    if n == 0 {
        assert(b.reach_in(input, 0, 0, s, None));
        assert(b.reach(input, 0, s, None));
        assert(b.moves(input, 0, s, None, 0, v, Some(label@)));
        lemma_reach_move(b, input, 0, s, None, 0, v, Some(label@));
    } else {
        let (j, u, gu) = choose|j: nat, u: int, gu: Group| #[trigger]
            a.moves(input, j, u, gu, k, v, g) && a.reach_in(input, j, (n - 1) as nat, u, gu);
        lemma_grouped_complete(a, label, input, j, (n - 1) as nat, u, gu);
        assert(b.ts[u] == a.ts[u]);
        assert(!(a.ts[u] is Group));
        assert(b.moves(input, j, u, Some(label@), k, v, Some(label@)));
        lemma_reach_move(b, input, j, u, Some(label@), k, v, Some(label@));
    }
}

/// An automaton behind its group marker accepts what the automaton accepts,
/// in the group of the marker, and is tidy if the automaton is.
pub proof fn lemma_grouped_accepts(a: Automaton, label: Label, input: Seq<char>, k: nat, v: int, g: Group)
    requires
        a.tidy(),
        a.plain(),
        a.ts.len() < usize::MAX,
        0 <= v < a.ts.len(),
    ensures
        grouped(a, label).tidy(),
        grouped(a, label).reach(input, k, v, g) <==> (g == Some(label@) && a.reach(input, k, v, None)),
{
    let b = grouped(a, label);
    super::nfa_set::lemma_grouped_wf(a, label);
    assert forall|i: int| 0 <= i < b.ts.len() implies ((#[trigger] b.ts[i]) matches Transition::Group(
        _,
        e,
    ) ==> e != b.accept) by {
        if i < a.ts.len() {
            assert(b.ts[i] == a.ts[i]);
            assert(!(a.ts[i] is Group));
        }
    }
    if b.reach(input, k, v, g) {
        let n = choose|n: nat| b.reach_in(input, k, n, v, g);
        lemma_grouped_sound(a, label, input, k, n, v, g);
    }
    if g == Some(label@) && a.reach(input, k, v, None) {
        let n = choose|n: nat| a.reach_in(input, k, n, v, None);
        lemma_grouped_complete(a, label, input, k, n, v, None);
    }
}

/// Where a state of the appended automaton lies in the fusion.
pub open spec fn embed(base: Automaton, next: Automaton, v: int) -> int {
    if v == next.accept.0 {
        base.accept.0 as int
    } else if v == next.eof.0 {
        base.eof.0 as int
    } else {
        v + base.ts.len()
    }
}

/// What is reached in a fusion: its start at the start; a state of the base
/// that is reached in the base; a state of the appended automaton that is
/// reached there; and the accepting state and the end-of-input state if
/// they are reached in either.
pub open spec fn fused_at(
    base: Automaton,
    next: Automaton,
    input: Seq<char>,
    k: nat,
    v: int,
    g: Group,
) -> bool {
    let off = base.ts.len() as int;
    let s = off + next.ts.len();
    ||| v == s && k == 0 && g is None
    ||| 0 <= v < off && v != base.accept.0 && v != base.eof.0 && base.reach(input, k, v, g)
    ||| v == base.accept.0 && (base.reach(input, k, v, g) || next.reach(
        input,
        k,
        next.accept.0 as int,
        g,
    ))
    ||| v == base.eof.0 && (base.reach(input, k, v, g) || next.reach(input, k, next.eof.0 as int, g))
    ||| off <= v < s && v - off != next.accept.0 && v - off != next.eof.0 && next.reach(
        input,
        k,
        v - off,
        g,
    )
}

/// The transitions of a fusion.
proof fn lemma_fused_table(base: Automaton, next: Automaton)
    requires
        base.wf(),
        next.wf(),
        base.ts.len() + next.ts.len() < usize::MAX,
    ensures
        ({
            let f = fused(base, next);
            let off = base.ts.len() as int;
            let s = off + next.ts.len();
            &&& f.ts.len() == s + 1
            &&& f.start.0 == s
            &&& f.accept == base.accept
            &&& f.eof == base.eof
            &&& f.ts[s] == Transition::Split(
                Some(base.start),
                Some(State((next.start.0 + off) as usize)),
            )
            &&& forall|v: int| 0 <= v < off ==> #[trigger] f.ts[v] == base.ts[v]
            &&& forall|v: int|
                0 <= v < next.ts.len() ==> #[trigger] f.ts[v + off] == shift_transition(
                    next.ts[v],
                    next,
                    base,
                )
        }),
{
}

/// Every state that is reached in a fusion is reached in one of the two
/// automata.
pub proof fn lemma_fused_sound(
    base: Automaton,
    next: Automaton,
    input: Seq<char>,
    k: nat,
    n: nat,
    v: int,
    g: Group,
)
    requires
        base.tidy(),
        next.tidy(),
        base.ts.len() + next.ts.len() < usize::MAX,
        fused(base, next).reach_in(input, k, n, v, g),
    ensures
        fused_at(base, next, input, k, v, g),
    decreases n,
{
    let f = fused(base, next);
    let off = base.ts.len() as int;
    let s = off + next.ts.len();
    lemma_fused_table(base, next);
    if n > 0 {
        let (j, u, gu) = choose|j: nat, u: int, gu: Group| #[trigger]
            f.moves(input, j, u, gu, k, v, g) && f.reach_in(input, j, (n - 1) as nat, u, gu);
        lemma_fused_sound(base, next, input, j, (n - 1) as nat, u, gu);
        if u == s {
            assert(base.reach_in(input, 0, 0, base.start.0 as int, None));
            assert(next.reach_in(input, 0, 0, next.start.0 as int, None));
        } else if u < off {
            assert(f.ts[u] == base.ts[u]);
            assert(targets_within(base.ts[u], off));
            assert(base.moves(input, j, u, gu, k, v, g));
            lemma_reach_move(base, input, j, u, gu, k, v, g);
        } else {
            let w = u - off;
            let t = next.ts[w];
            assert(f.ts[w + off] == shift_transition(t, next, base));
            assert(targets_within(t, next.ts.len() as int));
            match t {
                Transition::Label(l, e) => {
                    assert(next.moves(input, j, w, gu, k, e.0 as int, g));
                    lemma_reach_move(next, input, j, w, gu, k, e.0 as int, g);
                },
                Transition::Split(a, b) => {
                    let first = a->0;
                    let second = b->0;
                    if a is Some && shifted(first, next, base).0 == v {
                        assert(next.moves(input, j, w, gu, k, first.0 as int, g));
                        lemma_reach_move(next, input, j, w, gu, k, first.0 as int, g);
                    } else {
                        assert(next.moves(input, j, w, gu, k, second.0 as int, g));
                        lemma_reach_move(next, input, j, w, gu, k, second.0 as int, g);
                    }
                },
                Transition::Group(l, e) => {
                    assert(next.moves(input, j, w, gu, k, e.0 as int, g));
                    lemma_reach_move(next, input, j, w, gu, k, e.0 as int, g);
                },
                _ => {},
            }
        }
    }
}

/// Every state that is reached in the base is reached in the fusion.
pub proof fn lemma_fused_base(
    base: Automaton,
    next: Automaton,
    input: Seq<char>,
    k: nat,
    n: nat,
    v: int,
    g: Group,
)
    requires
        base.tidy(),
        next.tidy(),
        base.ts.len() + next.ts.len() < usize::MAX,
        base.reach_in(input, k, n, v, g),
    ensures
        fused(base, next).reach(input, k, v, g),
    decreases n,
{
    let f = fused(base, next);
    let off = base.ts.len() as int;
    let s = off + next.ts.len();
    lemma_fused_table(base, next);
    if n == 0 {
        assert(f.reach_in(input, 0, 0, s, None));
        assert(f.reach(input, 0, s, None));
        assert(f.moves(input, 0, s, None, 0, v, None));
        lemma_reach_move(f, input, 0, s, None, 0, v, None);
    } else {
        let (j, u, gu) = choose|j: nat, u: int, gu: Group| #[trigger]
            base.moves(input, j, u, gu, k, v, g) && base.reach_in(input, j, (n - 1) as nat, u, gu);
        lemma_fused_base(base, next, input, j, (n - 1) as nat, u, gu);
        assert(f.ts[u] == base.ts[u]);
        assert(f.moves(input, j, u, gu, k, v, g));
        lemma_reach_move(f, input, j, u, gu, k, v, g);
    }
}

/// Every state that is reached in the appended automaton is reached in the
/// fusion, where it lies there.
pub proof fn lemma_fused_next(
    base: Automaton,
    next: Automaton,
    input: Seq<char>,
    k: nat,
    n: nat,
    v: int,
    g: Group,
)
    requires
        base.tidy(),
        next.tidy(),
        base.ts.len() + next.ts.len() < usize::MAX,
        next.reach_in(input, k, n, v, g),
    ensures
        fused(base, next).reach(input, k, embed(base, next, v), g),
    decreases n,
{
    let f = fused(base, next);
    let off = base.ts.len() as int;
    let s = off + next.ts.len();
    lemma_fused_table(base, next);
    if n == 0 {
        assert(f.reach_in(input, 0, 0, s, None));
        assert(f.reach(input, 0, s, None));
        assert(f.moves(input, 0, s, None, 0, v + off, None));
        lemma_reach_move(f, input, 0, s, None, 0, v + off, None);
    } else {
        let (j, u, gu) = choose|j: nat, u: int, gu: Group| #[trigger]
            next.moves(input, j, u, gu, k, v, g) && next.reach_in(input, j, (n - 1) as nat, u, gu);
        lemma_fused_next(base, next, input, j, (n - 1) as nat, u, gu);
        lemma_accept_rests(next, input, j, gu, k, v, g);
        lemma_eof_rests(next, input, j, gu, k, v, g);
        let t = next.ts[u];
        assert(f.ts[u + off] == shift_transition(t, next, base));
        assert(targets_within(t, next.ts.len() as int));
        let to = embed(base, next, v);
        assert(f.moves(input, j, u + off, gu, k, to, g));
        lemma_reach_move(f, input, j, u + off, gu, k, to, g);
    }
}

/// What a fusion accepts: what the base accepts and what the appended
/// automaton accepts, each in its groups. It comes to the end of input
/// where either does. And it is tidy.
pub proof fn lemma_fused_accepts(base: Automaton, next: Automaton, input: Seq<char>, k: nat, g: Group)
    requires
        base.tidy(),
        next.tidy(),
        base.ts.len() + next.ts.len() < usize::MAX,
    ensures
        fused(base, next).tidy(),
        fused(base, next).reach(input, k, fused(base, next).accept.0 as int, g) <==> (base.reach(
            input,
            k,
            base.accept.0 as int,
            g,
        ) || next.reach(input, k, next.accept.0 as int, g)),
        fused(base, next).reach(input, k, fused(base, next).eof.0 as int, g) <==> (base.reach(
            input,
            k,
            base.eof.0 as int,
            g,
        ) || next.reach(input, k, next.eof.0 as int, g)),
{
    let f = fused(base, next);
    let off = base.ts.len() as int;
    lemma_fused_table(base, next);
    super::nfa_set::lemma_fused_wf(base, next);
    assert forall|i: int| 0 <= i < f.ts.len() implies ((#[trigger] f.ts[i]) matches Transition::Group(
        _,
        e,
    ) ==> e != f.accept) by {
        if i < off {
            assert(f.ts[i] == base.ts[i]);
        } else if i < off + next.ts.len() {
            assert(f.ts[(i - off) + off] == shift_transition(next.ts[i - off], next, base));
            assert(targets_within(next.ts[i - off], next.ts.len() as int));
        }
    }
    let accept = f.accept.0 as int;
    let eof = f.eof.0 as int;
    assert(f.ts[accept] == base.ts[accept]);
    assert(f.ts[eof] == base.ts[eof]);
    if f.reach(input, k, accept, g) {
        let n = choose|n: nat| f.reach_in(input, k, n, accept, g);
        lemma_fused_sound(base, next, input, k, n, accept, g);
    }
    if f.reach(input, k, eof, g) {
        let n = choose|n: nat| f.reach_in(input, k, n, eof, g);
        lemma_fused_sound(base, next, input, k, n, eof, g);
    }
    if base.reach(input, k, accept, g) {
        let n = choose|n: nat| base.reach_in(input, k, n, accept, g);
        lemma_fused_base(base, next, input, k, n, accept, g);
    }
    if base.reach(input, k, eof, g) {
        let n = choose|n: nat| base.reach_in(input, k, n, eof, g);
        lemma_fused_base(base, next, input, k, n, eof, g);
    }
    if next.reach(input, k, next.accept.0 as int, g) {
        let n = choose|n: nat| next.reach_in(input, k, n, next.accept.0 as int, g);
        lemma_fused_next(base, next, input, k, n, next.accept.0 as int, g);
    }
    if next.reach(input, k, next.eof.0 as int, g) {
        let n = choose|n: nat| next.reach_in(input, k, n, next.eof.0 as int, g);
        lemma_fused_next(base, next, input, k, n, next.eof.0 as int, g);
    }
}

/// Every part is tidy and has no group markers of its own.
pub open spec fn parts_tidy(parts: Seq<(Label, Automaton)>) -> bool {
    forall|i: int| 0 <= i < parts.len() ==> (#[trigger] parts[i]).1.tidy() && parts[i].1.plain()
}

/// The part at place `i` accepts the first `k` characters of the input, and
/// `g` is the group of its label.
pub open spec fn part_accepts(
    parts: Seq<(Label, Automaton)>,
    i: int,
    input: Seq<char>,
    k: nat,
    g: Group,
) -> bool {
    0 <= i < parts.len() && g == Some(parts[i].0@) && parts[i].1.reach(
        input,
        k,
        parts[i].1.accept.0 as int,
        None,
    )
}

/// The part at place `i` is at its end-of-input state after the first `k`
/// characters of the input, and `g` is the group of its label.
pub open spec fn part_ends(parts: Seq<(Label, Automaton)>, i: int, input: Seq<char>, k: nat, g: Group) -> bool {
    0 <= i < parts.len() && g == Some(parts[i].0@) && parts[i].1.reach(
        input,
        k,
        parts[i].1.eof.0 as int,
        None,
    )
}

/// A fusion grows with every part.
proof fn lemma_fuse_upto_len(parts: Seq<(Label, Automaton)>, m: nat)
    ensures
        m > 0 ==> fuse_upto(parts, m).ts.len() == fuse_upto(parts, (m - 1) as nat).ts.len() + parts[m as int].1.ts.len()
            + 2,
{
}

/// What the fusion of the first part with the `m` parts that follow it
/// accepts: what one of these parts accepts, in the group of its label. And
/// it is at the end-of-input state where one of these parts is, in the
/// group of its label.
pub proof fn lemma_fuse_upto_accepts(
    parts: Seq<(Label, Automaton)>,
    m: nat,
    input: Seq<char>,
    k: nat,
    g: Group,
)
    requires
        m < parts.len(),
        parts_tidy(parts),
        fuse_upto(parts, m).ts.len() <= usize::MAX,
    ensures
        fuse_upto(parts, m).tidy(),
        fuse_upto(parts, m).reach(input, k, fuse_upto(parts, m).accept.0 as int, g) <==> exists|i: int|
            0 <= i <= m && #[trigger] part_accepts(parts, i, input, k, g),
        fuse_upto(parts, m).reach(input, k, fuse_upto(parts, m).eof.0 as int, g) <==> exists|i: int|
            0 <= i <= m && #[trigger] part_ends(parts, i, input, k, g),
    decreases m,
{
    let a = parts[m as int].1;
    let label = parts[m as int].0;
    lemma_grouped_accepts(a, label, input, k, a.accept.0 as int, g);
    lemma_grouped_accepts(a, label, input, k, a.eof.0 as int, g);
    if m == 0 {
        if part_accepts(parts, 0, input, k, g) {
        }
        if part_ends(parts, 0, input, k, g) {
        }
    } else {
        let j = (m - 1) as nat;
        let base = fuse_upto(parts, j);
        let next = grouped(a, label);
        lemma_fuse_upto_len(parts, m);
        lemma_fuse_upto_accepts(parts, j, input, k, g);
        lemma_fused_accepts(base, next, input, k, g);
        if part_accepts(parts, m as int, input, k, g) {
        }
        if part_ends(parts, m as int, input, k, g) {
        }
        if exists|i: int| 0 <= i <= j && #[trigger] part_accepts(parts, i, input, k, g) {
            let i = choose|i: int| 0 <= i <= j && #[trigger] part_accepts(parts, i, input, k, g);
            assert(0 <= i <= m && part_accepts(parts, i, input, k, g));
        }
        if exists|i: int| 0 <= i <= m && #[trigger] part_accepts(parts, i, input, k, g) {
            let i = choose|i: int| 0 <= i <= m && #[trigger] part_accepts(parts, i, input, k, g);
            if i <= j {
                assert(0 <= i <= j && part_accepts(parts, i, input, k, g));
            }
        }
        if exists|i: int| 0 <= i <= j && #[trigger] part_ends(parts, i, input, k, g) {
            let i = choose|i: int| 0 <= i <= j && #[trigger] part_ends(parts, i, input, k, g);
            assert(0 <= i <= m && part_ends(parts, i, input, k, g));
        }
        if exists|i: int| 0 <= i <= m && #[trigger] part_ends(parts, i, input, k, g) {
            let i = choose|i: int| 0 <= i <= m && #[trigger] part_ends(parts, i, input, k, g);
            if i <= j {
                assert(0 <= i <= j && part_ends(parts, i, input, k, g));
            }
        }
    }
}

/// What a fused automaton accepts: a prefix of the input is accepted in a
/// group if and only if it is the group of the label of a part that accepts
/// the prefix. And the whole input leads to the end-of-input state in a
/// group if and only if it is the group of the label of a part in which the
/// input leads there.
pub proof fn lemma_fusion_accepts(parts: Seq<(Label, Automaton)>, input: Seq<char>, k: nat, g: Group)
    requires
        parts.len() > 0,
        parts_tidy(parts),
        fuse_spec(parts).ts.len() <= usize::MAX,
    ensures
        fuse_spec(parts).tidy(),
        fuse_spec(parts).accepts_at(input, k, g) <==> exists|i: int|
            0 <= i < parts.len() && g == Some((#[trigger] parts[i]).0@) && parts[i].1.accepted(input, k),
        fuse_spec(parts).ends_at(input, g) <==> exists|i: int|
            0 <= i < parts.len() && g == Some((#[trigger] parts[i]).0@) && parts[i].1.ended(input),
{
    let f = fuse_spec(parts);
    let m = (parts.len() - 1) as nat;
    let len = input.len();
    lemma_fuse_upto_accepts(parts, m, input, k, g);
    lemma_fuse_upto_accepts(parts, m, input, len, g);
    // The accepted prefixes.
    if exists|i: int|
        0 <= i < parts.len() && g == Some((#[trigger] parts[i]).0@) && parts[i].1.accepted(input, k) {
        let i = choose|i: int|
            0 <= i < parts.len() && g == Some((#[trigger] parts[i]).0@) && parts[i].1.accepted(
                input,
                k,
            );
        let a = parts[i].1;
        let h = choose|h: Group| a.accepts_at(input, k, h);
        let n = choose|n: nat| a.reach_in(input, k, n, a.accept.0 as int, h);
        super::laws::lemma_plain_groups(a, input, k, n, a.accept.0 as int, h);
        assert(0 <= i <= m && part_accepts(parts, i, input, k, g));
    }
    if f.accepts_at(input, k, g) {
        let i = choose|i: int| 0 <= i <= m && #[trigger] part_accepts(parts, i, input, k, g);
        assert(parts[i].1.accepts_at(input, k, None));
        assert(0 <= i < parts.len() && g == Some(parts[i].0@) && parts[i].1.accepted(input, k));
    }
    // The end of input.
    if exists|i: int|
        0 <= i < parts.len() && g == Some((#[trigger] parts[i]).0@) && parts[i].1.ended(input) {
        let i = choose|i: int|
            0 <= i < parts.len() && g == Some((#[trigger] parts[i]).0@) && parts[i].1.ended(input);
        let a = parts[i].1;
        let h = choose|h: Group| a.ends_at(input, h);
        let n = choose|n: nat| a.reach_in(input, len, n, a.eof.0 as int, h);
        super::laws::lemma_plain_groups(a, input, len, n, a.eof.0 as int, h);
        assert(0 <= i <= m && part_ends(parts, i, input, len, g));
    }
    if f.ends_at(input, g) {
        let i = choose|i: int| 0 <= i <= m && #[trigger] part_ends(parts, i, input, len, g);
        assert(parts[i].1.ends_at(input, None));
        assert(0 <= i < parts.len() && g == Some(parts[i].0@) && parts[i].1.ended(input));
    }
}

/// The automaton of a program of one expression is tidy and has no group
/// markers.
pub proof fn lemma_compiled_tidy(tokens: Seq<Token>)
    requires
        tokens.len() + 2 <= usize::MAX,
        is_expression(tokens),
    ensures
        compile_spec(tokens) is Ok,
        compile_spec(tokens)->Ok_0.tidy(),
        compile_spec(tokens)->Ok_0.plain(),
{
    super::thompson::lemma_expression_compiles(tokens);
    super::laws::lemma_compiled_shape(tokens);
    super::thompson::lemma_depth_builds(tokens, tokens.len());
    super::thompson::lemma_builder_run_ok(tokens, tokens.len());
    let b = builder_run(tokens, tokens.len())->Ok_0;
    let a = compile_spec(tokens)->Ok_0;
    assert(frag_ok(b.ts, b.stack[0]));
    assert forall|i: int| 0 <= i < a.ts.len() implies ((#[trigger] a.ts[i]) matches Transition::Group(
        _,
        e,
    ) ==> e != a.accept) by {
        assert(!(a.ts[i] is Group));
    }
}

/// The automata of labelled programs, each with its label.
pub open spec fn compiled_parts(programs: Seq<(Label, Seq<Token>)>) -> Seq<(Label, Automaton)> {
    Seq::new(programs.len(), |i: int| (programs[i].0, compile_spec(programs[i].1)->Ok_0))
}

/// The pattern at place `i` comes to an end-of-input sign after the whole
/// of the input, and `g` is the group of its label.
pub open spec fn pattern_ends(programs: Seq<(Label, Seq<Token>)>, i: int, input: Seq<char>, g: Group) -> bool {
    0 <= i < programs.len() && g == Some(programs[i].0@) && means(
        pattern_of(programs[i].1)->0,
        input,
        true,
    )
}

/// What a set of patterns matches: a prefix of the input is accepted in a
/// group if and only if it is the group of the label of a pattern that
/// matches the prefix as a whole. And the whole input leads to the
/// end-of-input state in a group if and only if it is the group of the
/// label of a pattern that comes to an end-of-input sign after the input.
pub proof fn lemma_set_means(programs: Seq<(Label, Seq<Token>)>, input: Seq<char>, k: nat, g: Group)
    requires
        programs.len() > 0,
        forall|i: int|
            0 <= i < programs.len() ==> is_expression((#[trigger] programs[i]).1) && programs[i].1.len()
                + 2 <= usize::MAX,
        fuse_spec(compiled_parts(programs)).ts.len() <= usize::MAX,
        k <= input.len(),
    ensures
        fuse_spec(compiled_parts(programs)).accepts_at(input, k, g) <==> exists|i: int|
            0 <= i < programs.len() && g == Some((#[trigger] programs[i]).0@) && means(
                pattern_of(programs[i].1)->0,
                input.take(k as int),
                false,
            ),
        fuse_spec(compiled_parts(programs)).ends_at(input, g) <==> exists|i: int| #[trigger]
            pattern_ends(programs, i, input, g),
{
    let parts = compiled_parts(programs);
    assert forall|i: int| 0 <= i < parts.len() implies (#[trigger] parts[i]).1.tidy()
        && parts[i].1.plain() by {
        lemma_compiled_tidy(programs[i].1);
    }
    lemma_fusion_accepts(parts, input, k, g);
    assert forall|i: int| 0 <= i < programs.len() implies (parts[i].1.accepted(input, k) <==> means(
        pattern_of((#[trigger] programs[i]).1)->0,
        input.take(k as int),
        false,
    )) && (parts[i].1.ended(input) <==> means(pattern_of(programs[i].1)->0, input, true)) by {
        lemma_compile_means(programs[i].1, input, k);
    }
    if exists|i: int|
        0 <= i < parts.len() && g == Some((#[trigger] parts[i]).0@) && parts[i].1.accepted(input, k) {
        let i = choose|i: int|
            0 <= i < parts.len() && g == Some((#[trigger] parts[i]).0@) && parts[i].1.accepted(
                input,
                k,
            );
        assert(g == Some(programs[i].0@) && means(
            pattern_of(programs[i].1)->0,
            input.take(k as int),
            false,
        ));
    }
    if exists|i: int|
        0 <= i < programs.len() && g == Some((#[trigger] programs[i]).0@) && means(
            pattern_of(programs[i].1)->0,
            input.take(k as int),
            false,
        ) {
        let i = choose|i: int|
            0 <= i < programs.len() && g == Some((#[trigger] programs[i]).0@) && means(
                pattern_of(programs[i].1)->0,
                input.take(k as int),
                false,
            );
        assert(g == Some(parts[i].0@) && parts[i].1.accepted(input, k));
    }
    if exists|i: int|
        0 <= i < parts.len() && g == Some((#[trigger] parts[i]).0@) && parts[i].1.ended(input) {
        let i = choose|i: int|
            0 <= i < parts.len() && g == Some((#[trigger] parts[i]).0@) && parts[i].1.ended(input);
        assert(programs[i].0 == parts[i].0);
        assert(pattern_ends(programs, i, input, g));
    }
    if exists|i: int| #[trigger] pattern_ends(programs, i, input, g) {
        let i = choose|i: int| #[trigger] pattern_ends(programs, i, input, g);
        assert(programs[i].0 == parts[i].0);
        assert(g == Some(parts[i].0@) && parts[i].1.ended(input));
    }
}

/// The match is one of the pattern at place `i`: it is in the group of its
/// label, and its length is that of a prefix of the input that the pattern
/// matches as a whole, or that of the whole input, after which the pattern
/// comes to an end-of-input sign.
pub open spec fn match_of_pattern(
    programs: Seq<(Label, Seq<Token>)>,
    input: Seq<char>,
    m: crate::language::Match,
    i: int,
    j: nat,
) -> bool {
    &&& 0 <= i < programs.len()
    &&& j <= input.len()
    &&& m.group() == Some(programs[i].0@)
    &&& m.size() == crate::text::utf8_len(input.take(j as int))
    &&& means(pattern_of(programs[i].1)->0, input.take(j as int), false) || (j == input.len() && means(
        pattern_of(programs[i].1)->0,
        input,
        true,
    ))
}

/// The match is one of a pattern of the set.
pub open spec fn is_pattern_match(
    programs: Seq<(Label, Seq<Token>)>,
    input: Seq<char>,
    m: crate::language::Match,
) -> bool {
    exists|i: int, j: nat| match_of_pattern(programs, input, m, i, j)
}

/// Some match is at least `size` bytes long.
pub open spec fn covered(r: Seq<crate::language::Match>, size: nat) -> bool {
    exists|x: int| 0 <= x < r.len() && (#[trigger] r[x]).size() >= size
}

/// The matches of a set of patterns, in what the patterns mean: every match
/// is one of a pattern of the set; every prefix of the input that a pattern
/// matches as a whole is covered by a match at least as long; and so is the
/// whole input if a pattern comes to an end-of-input sign after it. So the
/// longest match is that of the longest prefix that any pattern matches.
pub proof fn lemma_set_matches_mean(programs: Seq<(Label, Seq<Token>)>, input: Seq<char>)
    requires
        programs.len() > 0,
        forall|i: int|
            0 <= i < programs.len() ==> is_expression((#[trigger] programs[i]).1) && programs[i].1.len()
                + 2 <= usize::MAX,
        fuse_spec(compiled_parts(programs)).ts.len() <= usize::MAX,
        crate::text::utf8_len(input) <= usize::MAX,
    ensures
        forall|x: int|
            0 <= x < fuse_spec(compiled_parts(programs)).matches(input).len() ==> is_pattern_match(
                programs,
                input,
                #[trigger] fuse_spec(compiled_parts(programs)).matches(input)[x],
            ),
        forall|i: int, j: nat|
            0 <= i < programs.len() && j <= input.len() && means(
                pattern_of((#[trigger] programs[i]).1)->0,
                #[trigger] input.take(j as int),
                false,
            ) ==> covered(
                fuse_spec(compiled_parts(programs)).matches(input),
                crate::text::utf8_len(input.take(j as int)),
            ),
        forall|i: int|
            0 <= i < programs.len() && means(pattern_of((#[trigger] programs[i]).1)->0, input, true)
                ==> covered(
                fuse_spec(compiled_parts(programs)).matches(input),
                crate::text::utf8_len(input),
            ),
{
    let parts = compiled_parts(programs);
    let f = fuse_spec(parts);
    let r = f.matches(input);
    let len = input.len();
    assert forall|i: int| 0 <= i < parts.len() implies (#[trigger] parts[i]).1.tidy()
        && parts[i].1.plain() by {
        lemma_compiled_tidy(programs[i].1);
    }
    lemma_fusion_accepts(parts, input, 0, None);
    super::sound::lemma_matches_report(f, input);
    let m = choose|m: int|
        0 <= m <= r.len() && #[trigger] f.accept_report(input, r.take(m)) && f.end_report(
            input,
            r.skip(m),
        );
    let hits = r.take(m);
    let ends = r.skip(m);
    assert(input.take(len as int) =~= input);
    assert forall|x: int| 0 <= x < r.len() implies is_pattern_match(programs, input, #[trigger] r[x]) by {
        if x < m {
            assert(hits[x] == r[x]);
            let j = choose|j: nat|
                j <= len && hits[x].size() == crate::text::utf8_len(input.take(j as int))
                    && #[trigger] f.accepts_at(input, j, hits[x].group());
            assert(f.accepts_at(input, j, r[x].group()));
            lemma_set_means(programs, input, j, r[x].group());
            let i = choose|i: int|
                0 <= i < programs.len() && r[x].group() == Some((#[trigger] programs[i]).0@)
                    && means(pattern_of(programs[i].1)->0, input.take(j as int), false);
            assert(r[x].size() == crate::text::utf8_len(input.take(j as int)));
            assert(match_of_pattern(programs, input, r[x], i, j));
        } else {
            assert(ends[0] == r[x]);
            assert(f.ends_at(input, r[x].group()));
            lemma_set_means(programs, input, len, r[x].group());
            let i = choose|i: int| #[trigger] pattern_ends(programs, i, input, r[x].group());
            assert(r[x].size() == crate::text::utf8_len(input.take(len as int)));
            assert(match_of_pattern(programs, input, r[x], i, len));
        }
    }
    assert forall|i: int, j: nat|
        0 <= i < programs.len() && j <= input.len() && means(
            pattern_of((#[trigger] programs[i]).1)->0,
            #[trigger] input.take(j as int),
            false,
        ) implies covered(r, crate::text::utf8_len(input.take(j as int))) by {
        let g = Some(programs[i].0@);
        lemma_set_means(programs, input, j, g);
        assert(f.accepts_at(input, j, g));
        assert(f.accepted(input, j));
        let x = choose|x: int|
            0 <= x < hits.len() && f.accepts_at(input, j, (#[trigger] hits[x]).group()) && hits[x].size()
                >= crate::text::utf8_len(input.take(j as int));
        assert(hits[x] == r[x]);
    }
    assert forall|i: int|
        0 <= i < programs.len() && means(
            pattern_of((#[trigger] programs[i]).1)->0,
            input,
            true,
        ) implies covered(r, crate::text::utf8_len(input)) by {
        let g = Some(programs[i].0@);
        assert(pattern_ends(programs, i, input, g));
        lemma_set_means(programs, input, len, g);
        assert(f.ends_at(input, g));
        assert(f.ended(input));
        assert(ends[0] == r[m]);
    }
}

/// Longest match: the match that a tokenizer takes, which is the longest of
/// the matches of its set of patterns, is one of a pattern of the set, and no
/// pattern of the set matches a longer prefix of the input.
pub proof fn lemma_maximal_munch(programs: Seq<(Label, Seq<Token>)>, input: Seq<char>, best: int)
    requires
        programs.len() > 0,
        forall|i: int|
            0 <= i < programs.len() ==> is_expression((#[trigger] programs[i]).1) && programs[i].1.len()
                + 2 <= usize::MAX,
        fuse_spec(compiled_parts(programs)).ts.len() <= usize::MAX,
        crate::text::utf8_len(input) <= usize::MAX,
        crate::lexer::token::is_longest(fuse_spec(compiled_parts(programs)).matches(input), best),
    ensures
        is_pattern_match(programs, input, fuse_spec(compiled_parts(programs)).matches(input)[best]),
        forall|i: int, j: nat|
            0 <= i < programs.len() && j <= input.len() && means(
                pattern_of((#[trigger] programs[i]).1)->0,
                #[trigger] input.take(j as int),
                false,
            ) ==> crate::text::utf8_len(input.take(j as int)) <= fuse_spec(
                compiled_parts(programs),
            ).matches(input)[best].size(),
{
    let r = fuse_spec(compiled_parts(programs)).matches(input);
    lemma_set_matches_mean(programs, input);
    assert forall|i: int, j: nat|
        0 <= i < programs.len() && j <= input.len() && means(
            pattern_of((#[trigger] programs[i]).1)->0,
            #[trigger] input.take(j as int),
            false,
        ) implies crate::text::utf8_len(input.take(j as int)) <= r[best].size() by {
        let size = crate::text::utf8_len(input.take(j as int));
        assert(covered(r, size));
        let x = choose|x: int| 0 <= x < r.len() && (#[trigger] r[x]).size() >= size;
        assert(r[x].size() <= r[best].size());
    }
}

/// Behind a group marker every state is reached in one group only.
pub proof fn lemma_grouped_one(
    a: Automaton,
    label: Label,
    input: Seq<char>,
    k: nat,
    v: int,
    g: Group,
    h: Group,
)
    requires
        a.wf(),
        a.plain(),
        a.ts.len() < usize::MAX,
        grouped(a, label).reach(input, k, v, g),
        grouped(a, label).reach(input, k, v, h),
    ensures
        g == h,
{
    let b = grouped(a, label);
    let n = choose|n: nat| b.reach_in(input, k, n, v, g);
    lemma_grouped_sound(a, label, input, k, n, v, g);
    let m = choose|m: nat| b.reach_in(input, k, m, v, h);
    lemma_grouped_sound(a, label, input, k, m, v, h);
}

/// In a fusion every state is reached in one group only, the accepting
/// state and the end-of-input state apart.
pub proof fn lemma_fuse_upto_one(
    parts: Seq<(Label, Automaton)>,
    m: nat,
    input: Seq<char>,
    k: nat,
    v: int,
    g: Group,
    h: Group,
)
    requires
        m < parts.len(),
        parts_tidy(parts),
        fuse_upto(parts, m).ts.len() <= usize::MAX,
        fuse_upto(parts, m).reach(input, k, v, g),
        fuse_upto(parts, m).reach(input, k, v, h),
        v != fuse_upto(parts, m).accept.0,
        v != fuse_upto(parts, m).eof.0,
    ensures
        g == h,
    decreases m,
{
    let a = parts[m as int].1;
    let label = parts[m as int].0;
    let f = fuse_upto(parts, m);
    if m == 0 {
        lemma_grouped_one(a, label, input, k, v, g, h);
    } else {
        let j = (m - 1) as nat;
        let base = fuse_upto(parts, j);
        let next = grouped(a, label);
        lemma_fuse_upto_len(parts, m);
        lemma_fuse_upto_accepts(parts, j, input, k, g);
        lemma_grouped_accepts(a, label, input, k, a.accept.0 as int, g);
        lemma_fused_table(base, next);
        let n1 = choose|n: nat| f.reach_in(input, k, n, v, g);
        lemma_fused_sound(base, next, input, k, n1, v, g);
        let n2 = choose|n: nat| f.reach_in(input, k, n, v, h);
        lemma_fused_sound(base, next, input, k, n2, v, h);
        let off = base.ts.len() as int;
        if v < off {
            lemma_fuse_upto_one(parts, j, input, k, v, g, h);
        } else if v < off + next.ts.len() {
            lemma_grouped_one(a, label, input, k, v - off, g, h);
        }
    }
}

/// A fused automaton comes to each state in one group only, the accepting
/// state and the end-of-input state apart.
pub proof fn lemma_fusion_sorted(parts: Seq<(Label, Automaton)>, input: Seq<char>)
    requires
        parts.len() > 0,
        parts_tidy(parts),
        fuse_spec(parts).ts.len() <= usize::MAX,
    ensures
        fuse_spec(parts).tidy(),
        fuse_spec(parts).sorted(input),
{
    let f = fuse_spec(parts);
    let m = (parts.len() - 1) as nat;
    lemma_fuse_upto_accepts(parts, m, input, 0, None);
    assert forall|k: nat| k <= input.len() implies #[trigger] f.one_group(input, k) by {
        assert forall|s: int, g: Group, h: Group|
            #[trigger] f.reach(input, k, s, g) && #[trigger] f.reach(input, k, s, h) && s != f.accept.0
                && s != f.eof.0 implies g == h by {
            lemma_fuse_upto_one(parts, m, input, k, s, g, h);
        }
    }
}

/// The match is in the group of the label of the pattern at place `i`, and
/// its length is that of the first `j` characters of the input, which the
/// pattern matches as a whole.
pub open spec fn pattern_hit(
    programs: Seq<(Label, Seq<Token>)>,
    input: Seq<char>,
    m: crate::language::Match,
    i: int,
    j: nat,
) -> bool {
    &&& 0 <= i < programs.len()
    &&& j <= input.len()
    &&& m.group() == Some(programs[i].0@)
    &&& m.size() == crate::text::utf8_len(input.take(j as int))
    &&& means(pattern_of(programs[i].1)->0, input.take(j as int), false)
}

/// The match is that of a prefix of the input that a pattern of the set
/// matches as a whole, in the group of the label of that pattern.
pub open spec fn is_pattern_hit(
    programs: Seq<(Label, Seq<Token>)>,
    input: Seq<char>,
    m: crate::language::Match,
) -> bool {
    exists|i: int, j: nat| pattern_hit(programs, input, m, i, j)
}

/// Some match of the group `g` is at least `size` bytes long.
pub open spec fn holds_for(p: Seq<crate::language::Match>, g: Group, size: nat) -> bool {
    exists|x: int| 0 <= x < p.len() && (#[trigger] p[x]).group() == g && p[x].size() >= size
}

/// Longest match per label: the matches of a set of patterns are those of
/// the accepted prefixes, followed by that of the end of input. Those of
/// the accepted prefixes hold no label twice; each is that of a prefix that
/// a pattern with its label matches as a whole; and for every prefix that a
/// pattern matches as a whole there is a match with the label of the
/// pattern that is at least as long. So every label whose pattern matches a
/// prefix is reported, with the longest prefix that is matched under it.
/// Where no pattern comes to an end-of-input sign after the input, these
/// are all the matches.
pub proof fn lemma_set_each_longest(programs: Seq<(Label, Seq<Token>)>, input: Seq<char>)
    requires
        programs.len() > 0,
        forall|i: int|
            0 <= i < programs.len() ==> is_expression((#[trigger] programs[i]).1) && programs[i].1.len()
                + 2 <= usize::MAX,
        fuse_spec(compiled_parts(programs)).ts.len() <= usize::MAX,
        crate::text::utf8_len(input) <= usize::MAX,
    ensures
        ({
            let f = fuse_spec(compiled_parts(programs));
            let p = f.accepted_matches(input);
            &&& f.matches(input) == p + f.end_matches(input)
            &&& forall|x: int, y: int|
                0 <= x < y < p.len() ==> (#[trigger] p[x]).group() != (#[trigger] p[y]).group()
            &&& forall|x: int| 0 <= x < p.len() ==> is_pattern_hit(programs, input, #[trigger] p[x])
            &&& forall|i: int, j: nat|
                0 <= i < programs.len() && j <= input.len() && means(
                    pattern_of((#[trigger] programs[i]).1)->0,
                    #[trigger] input.take(j as int),
                    false,
                ) ==> holds_for(p, Some(programs[i].0@), crate::text::utf8_len(input.take(j as int)))
            &&& (forall|i: int|
                0 <= i < programs.len() ==> !means(
                    pattern_of((#[trigger] programs[i]).1)->0,
                    input,
                    true,
                )) ==> f.matches(input) == p
        }),
{
    let parts = compiled_parts(programs);
    let f = fuse_spec(parts);
    let p = f.accepted_matches(input);
    assert forall|i: int| 0 <= i < parts.len() implies (#[trigger] parts[i]).1.tidy()
        && parts[i].1.plain() by {
        lemma_compiled_tidy(programs[i].1);
    }
    lemma_fusion_sorted(parts, input);
    super::groups::lemma_each_longest(f, input);
    if forall|i: int|
        0 <= i < programs.len() ==> !means(pattern_of((#[trigger] programs[i]).1)->0, input, true) {
        super::sound::lemma_end_matches(f, input);
        if f.ended(input) {
            let g = choose|g: Group| f.ends_at(input, g);
            lemma_set_means(programs, input, input.len(), g);
            let i = choose|i: int| #[trigger] pattern_ends(programs, i, input, g);
            assert(means(pattern_of(programs[i].1)->0, input, true));
        }
        assert(f.end_matches(input) =~= Seq::<crate::language::Match>::empty());
        assert(p + f.end_matches(input) =~= p);
    }
    assert forall|x: int| 0 <= x < p.len() implies is_pattern_hit(programs, input, #[trigger] p[x]) by {
        let j = choose|j: nat|
            j <= input.len() && p[x].size() == crate::text::utf8_len(input.take(j as int))
                && #[trigger] f.accepts_at(input, j, p[x].group());
        lemma_set_means(programs, input, j, p[x].group());
        let i = choose|i: int|
            0 <= i < programs.len() && p[x].group() == Some((#[trigger] programs[i]).0@) && means(
                pattern_of(programs[i].1)->0,
                input.take(j as int),
                false,
            );
        assert(pattern_hit(programs, input, p[x], i, j));
    }
    assert forall|i: int, j: nat|
        0 <= i < programs.len() && j <= input.len() && means(
            pattern_of((#[trigger] programs[i]).1)->0,
            #[trigger] input.take(j as int),
            false,
        ) implies holds_for(p, Some(programs[i].0@), crate::text::utf8_len(input.take(j as int))) by {
        let g = Some(programs[i].0@);
        lemma_set_means(programs, input, j, g);
        assert(f.accepts_at(input, j, g));
        let x = choose|x: int|
            0 <= x < p.len() && (#[trigger] p[x]).group() == g && p[x].size() >= crate::text::utf8_len(
                input.take(j as int),
            );
        assert(p[x].group() == g);
    }
}

} // verus!
