//! What follows from the contracts of compilation and simulation.

use vstd::prelude::*;
use super::model::Automaton;
use super::state::State;
use super::thompson::{avoids, builder_run, compile_spec, frag_ok, lemma_builder_run_ok};
use crate::language::{Group, Match};
use crate::parse::Token;
use crate::text::{is_prefix_len, lemma_utf8_len_prefix, utf8_len};

verus! {

/// Every match of a report is the length in bytes of a prefix of the input,
/// which starts at the first character of the input, and so is no longer
/// than the input.
pub proof fn lemma_report_anchored(a: Automaton, input: Seq<char>, r: Seq<Match>, i: int)
    requires
        a.match_report(input, r),
        0 <= i < r.len(),
    ensures
        is_prefix_len(input, r[i].size() as int),
        r[i].size() <= utf8_len(input),
{
    super::model::lemma_report_prefix(a, input, r, i);
    let j = choose|j: int| 0 <= j <= input.len() && r[i].size() as int == #[trigger] utf8_len(input.take(j));
    lemma_utf8_len_prefix(input, j, input.len() as int);
    assert(input.take(input.len() as int) == input);
}

impl Automaton {
    /// No transition leads to the accepting state, which is not the start.
    pub open spec fn never_accepts(self) -> bool {
        &&& self.start != self.accept
        &&& forall|i: int| 0 <= i < self.ts.len() ==> avoids(#[trigger] self.ts[i], self.accept.0 as int)
    }

    /// No state is a group marker.
    pub open spec fn plain(self) -> bool {
        forall|i: int| 0 <= i < self.ts.len() ==> !((#[trigger] self.ts[i]) is Group)
    }

    /// The first `k` characters of `input` are matched in group `g`: they
    /// are accepted in it, or they are all of the input and lead to the
    /// end-of-input state in it.
    pub open spec fn matched_at(self, input: Seq<char>, k: nat, g: Group) -> bool {
        self.accepts_at(input, k, g) || (k == input.len() && self.ends_at(input, g))
    }
}

/// An automaton to whose accepting state no transition leads accepts
/// nothing.
pub proof fn lemma_never_accepts(a: Automaton, input: Seq<char>, k: nat, n: nat, g: Group)
    requires
        a.never_accepts(),
    ensures
        !a.reach_in(input, k, n, a.accept.0 as int, g),
{
    if a.reach_in(input, k, n, a.accept.0 as int, g) {
        if n > 0 {
            let (j, u, gu) = choose|j: nat, u: int, gu: Group| #[trigger]
                a.moves(input, j, u, gu, k, a.accept.0 as int, g) && a.reach_in(
                    input,
                    j,
                    (n - 1) as nat,
                    u,
                    gu,
                );
            assert(avoids(a.ts[u], a.accept.0 as int));
        }
    }
}

/// The automaton of a program that ends with the end-of-input token and its
/// concatenation has no transition into its accepting state.
pub proof fn lemma_eof_terminated_never_accepts(body: Seq<Token>)
    requires
        body.len() + 4 <= usize::MAX,
        compile_spec(body + seq![Token::Eof, Token::Concat]) is Ok,
    ensures
        compile_spec(body + seq![Token::Eof, Token::Concat])->Ok_0.never_accepts(),
{
    let tokens = body + seq![Token::Eof, Token::Concat];
    let n = tokens.len();
    assert(tokens[n - 1] == Token::Concat);
    assert(tokens[n - 2] == Token::Eof);
    let b2 = builder_run(tokens, n);
    let b1 = builder_run(tokens, (n - 1) as nat);
    let b0 = builder_run(tokens, (n - 2) as nat);
    assert(b1 is Ok);
    assert(b0 is Ok);
    lemma_builder_run_ok(tokens, n);
    lemma_builder_run_ok(tokens, (n - 1) as nat);
    lemma_builder_run_ok(tokens, (n - 2) as nat);
    let s0 = b0->Ok_0.stack;
    let s1 = b1->Ok_0.stack;
    let s2 = b2->Ok_0.stack;
    assert(s1 == s0.push(s1[s1.len() - 1]));
    assert(s1[s1.len() - 1].out.len() == 0);
    assert(s2.len() == 1);
    assert(s2[0].out.len() == 0);
    let a = compile_spec(tokens)->Ok_0;
    assert(a.ts =~= b2->Ok_0.ts);
    assert(frag_ok(b2->Ok_0.ts, s2[0]));
}

/// End-of-input exclusivity: an automaton that never accepts reports a
/// match only if the whole input leads to the end-of-input state, and then
/// the one match of the whole length of the input.
pub proof fn lemma_only_whole_input(a: Automaton, input: Seq<char>, r: Seq<Match>)
    requires
        a.never_accepts(),
        a.match_report(input, r),
    ensures
        r.len() <= 1,
        r.len() == 1 <==> a.ended(input),
        r.len() == 1 ==> r[0].size() == utf8_len(input) && a.ends_at(input, r[0].group()),
{
    let m = choose|m: int|
        0 <= m <= r.len() && #[trigger] a.accept_report(input, r.take(m)) && a.end_report(
            input,
            r.skip(m),
        );
    let p = r.take(m);
    if m > 0 {
        let j = choose|j: nat|
            j <= input.len() && p[0].size() == utf8_len(input.take(j as int)) && #[trigger] a.accepts_at(
                input,
                j,
                p[0].group(),
            );
        let n = choose|n: nat| a.reach_in(input, j, n, a.accept.0 as int, p[0].group());
        lemma_never_accepts(a, input, j, n, p[0].group());
    }
    assert(r.skip(0) == r);
}

/// End-of-input exclusivity: a pattern that is terminated by the
/// end-of-input token matches only whole inputs. Its automaton gives a match
/// if and only if the whole input leads to the end-of-input state, and then
/// the one match of the whole length of the input.
pub proof fn lemma_eof_exclusive(body: Seq<Token>, input: Seq<char>)
    requires
        body.len() + 4 <= usize::MAX,
        utf8_len(input) <= usize::MAX,
        compile_spec(body + seq![Token::Eof, Token::Concat]) is Ok,
    ensures
        ({
            let a = compile_spec(body + seq![Token::Eof, Token::Concat])->Ok_0;
            let r = a.matches(input);
            &&& r.len() <= 1
            &&& r.len() == 1 <==> a.ended(input)
            &&& r.len() == 1 ==> r[0].size() == utf8_len(input)
        }),
{
    let a = compile_spec(body + seq![Token::Eof, Token::Concat])->Ok_0;
    lemma_eof_terminated_never_accepts(body);
    lemma_compiled_shape(body + seq![Token::Eof, Token::Concat]);
    super::sound::lemma_matches_report(a, input);
    lemma_only_whole_input(a, input, a.matches(input));
}

/// Where no prefix of the input is matched in two groups, and no group both
/// accepts a prefix and leads the whole input to the end-of-input state, a
/// report holds each group at most once, with the length of the longest
/// prefix that is matched in it, and holds every group in which a prefix is
/// matched.
pub proof fn lemma_report_longest_per_group(a: Automaton, input: Seq<char>, r: Seq<Match>)
    requires
        a.match_report(input, r),
        forall|j: nat, g: Group, h: Group|
            j <= input.len() && #[trigger] a.matched_at(input, j, g) && #[trigger] a.matched_at(
                input,
                j,
                h,
            ) ==> g == h,
        forall|j: nat, g: Group|
            j <= input.len() && #[trigger] a.accepts_at(input, j, g) ==> !a.ends_at(input, g),
    ensures
        forall|x: int, y: int|
            0 <= x < y < r.len() ==> (#[trigger] r[x]).group() != (#[trigger] r[y]).group(),
        forall|x: int|
            0 <= x < r.len() ==> exists|j: nat|
                j <= input.len() && (#[trigger] r[x]).size() == utf8_len(input.take(j as int))
                    && #[trigger] a.matched_at(input, j, r[x].group()),
        forall|x: int, j: nat|
            0 <= x < r.len() && j <= input.len() && #[trigger] a.matched_at(
                input,
                j,
                (#[trigger] r[x]).group(),
            ) ==> utf8_len(input.take(j as int)) <= r[x].size(),
        forall|j: nat, g: Group|
            j <= input.len() && #[trigger] a.matched_at(input, j, g) ==> exists|x: int|
                0 <= x < r.len() && (#[trigger] r[x]).group() == g,
{
    let m = choose|m: int|
        0 <= m <= r.len() && #[trigger] a.accept_report(input, r.take(m)) && a.end_report(
            input,
            r.skip(m),
        );
    let p = r.take(m);
    let q = r.skip(m);
    assert(input.take(input.len() as int) == input);
    assert forall|x: int| 0 <= x < r.len() implies exists|j: nat|
        j <= input.len() && (#[trigger] r[x]).size() == utf8_len(input.take(j as int))
            && #[trigger] a.matched_at(input, j, r[x].group()) by {
        if x < m {
            assert(p[x] == r[x]);
            let j = choose|j: nat|
                j <= input.len() && p[x].size() == utf8_len(input.take(j as int))
                    && #[trigger] a.accepts_at(input, j, p[x].group());
            assert(a.matched_at(input, j, r[x].group()));
        } else {
            assert(q[0] == r[x]);
            assert(a.matched_at(input, input.len(), r[x].group()));
        }
    }
    assert forall|x: int, y: int| 0 <= x < y < r.len() implies (#[trigger] r[x]).group() != (
    #[trigger] r[y]).group() by {
        assert(p[x] == r[x]);
        if y < m {
            assert(p[y] == r[y]);
        } else {
            assert(q[0] == r[y]);
            let j = choose|j: nat|
                j <= input.len() && p[x].size() == utf8_len(input.take(j as int))
                    && #[trigger] a.accepts_at(input, j, p[x].group());
        }
    }
    assert forall|x: int, j: nat|
        0 <= x < r.len() && j <= input.len() && #[trigger] a.matched_at(
            input,
            j,
            (#[trigger] r[x]).group(),
        ) implies utf8_len(input.take(j as int)) <= r[x].size() by {
        if x < m {
            assert(p[x] == r[x]);
            let j0 = choose|j0: nat|
                j0 <= input.len() && p[x].size() == utf8_len(input.take(j0 as int))
                    && #[trigger] a.accepts_at(input, j0, p[x].group());
            assert(!a.ends_at(input, r[x].group()));
            assert(a.accepts_at(input, j, r[x].group()));
            assert(a.accepted(input, j));
            let y = choose|y: int|
                0 <= y < p.len() && a.accepts_at(input, j, (#[trigger] p[y]).group()) && p[y].size()
                    >= utf8_len(input.take(j as int));
            assert(a.matched_at(input, j, p[y].group()));
            assert(p[y].group() == p[x].group());
            if y < x {
                assert(p[y].group() != p[x].group());
            }
            if x < y {
                assert(p[x].group() != p[y].group());
            }
        } else {
            assert(q[0] == r[x]);
            lemma_utf8_len_prefix(input, j as int, input.len() as int);
        }
    }
    assert forall|j: nat, g: Group| j <= input.len() && #[trigger] a.matched_at(input, j, g) implies exists|
        x: int,
    |
        0 <= x < r.len() && (#[trigger] r[x]).group() == g by {
        if a.accepts_at(input, j, g) {
            assert(a.accepted(input, j));
            let y = choose|y: int|
                0 <= y < p.len() && a.accepts_at(input, j, (#[trigger] p[y]).group()) && p[y].size()
                    >= utf8_len(input.take(j as int));
            assert(p[y] == r[y]);
            assert(a.matched_at(input, j, p[y].group()));
            assert(r[y].group() == g);
        } else {
            assert(a.ended(input));
            assert(q[0] == r[m]);
            assert(a.matched_at(input, j, q[0].group()));
        }
    }
}

/// An automaton without group markers reaches its states in no group.
pub proof fn lemma_plain_groups(a: Automaton, input: Seq<char>, k: nat, n: nat, s: int, g: Group)
    requires
        a.plain(),
        a.reach_in(input, k, n, s, g),
    ensures
        g is None,
    decreases n,
{
    if n > 0 {
        let (j, u, gu) = choose|j: nat, u: int, gu: Group| #[trigger]
            a.moves(input, j, u, gu, k, s, g) && a.reach_in(input, j, (n - 1) as nat, u, gu);
        lemma_plain_groups(a, input, j, (n - 1) as nat, u, gu);
    }
}

/// The accepted prefixes that an automaton without group markers reports:
/// none, or the longest one.
pub proof fn lemma_plain_accept_unique(a: Automaton, input: Seq<char>, pa: Seq<Match>, pb: Seq<Match>)
    requires
        a.plain(),
        a.accept_report(input, pa),
        a.accept_report(input, pb),
    ensures
        pa.len() <= 1,
        pa.len() <= pb.len(),
        pa.len() == 1 ==> pa[0] is NoGroup && pa[0].size() <= pb[0].size(),
{
    assert forall|x: int| 0 <= x < pa.len() implies (#[trigger] pa[x]).group() is None by {
        let j = choose|j: nat|
            j <= input.len() && pa[x].size() == utf8_len(input.take(j as int)) && #[trigger] a.accepts_at(
                input,
                j,
                pa[x].group(),
            );
        let n = choose|n: nat| a.reach_in(input, j, n, a.accept.0 as int, pa[x].group());
        lemma_plain_groups(a, input, j, n, a.accept.0 as int, pa[x].group());
    }
    if pa.len() >= 2 {
        assert(pa[0].group() != pa[1].group());
    }
    if pa.len() == 1 {
        let j = choose|j: nat|
            j <= input.len() && pa[0].size() == utf8_len(input.take(j as int)) && #[trigger] a.accepts_at(
                input,
                j,
                pa[0].group(),
            );
        assert(a.accepted(input, j));
        let y = choose|y: int|
            0 <= y < pb.len() && a.accepts_at(input, j, (#[trigger] pb[y]).group()) && pb[y].size()
                >= utf8_len(input.take(j as int));
        assert forall|x: int| 0 <= x < pb.len() implies (#[trigger] pb[x]).group() is None by {
            let j2 = choose|j2: nat|
                j2 <= input.len() && pb[x].size() == utf8_len(input.take(j2 as int))
                    && #[trigger] a.accepts_at(input, j2, pb[x].group());
            let n = choose|n: nat| a.reach_in(input, j2, n, a.accept.0 as int, pb[x].group());
            lemma_plain_groups(a, input, j2, n, a.accept.0 as int, pb[x].group());
        }
        if y > 0 {
            assert(pb[0].group() != pb[y].group());
        }
    }
}

/// For an automaton without group markers the report is settled: two
/// reports of the same input are the same.
pub proof fn lemma_plain_report_unique(a: Automaton, input: Seq<char>, r1: Seq<Match>, r2: Seq<Match>)
    requires
        a.plain(),
        a.match_report(input, r1),
        a.match_report(input, r2),
    ensures
        r1 == r2,
{
    let m1 = choose|m: int|
        0 <= m <= r1.len() && #[trigger] a.accept_report(input, r1.take(m)) && a.end_report(
            input,
            r1.skip(m),
        );
    let m2 = choose|m: int|
        0 <= m <= r2.len() && #[trigger] a.accept_report(input, r2.take(m)) && a.end_report(
            input,
            r2.skip(m),
        );
    let pa = r1.take(m1);
    let pb = r2.take(m2);
    let q1 = r1.skip(m1);
    let q2 = r2.skip(m2);
    lemma_plain_accept_unique(a, input, pa, pb);
    lemma_plain_accept_unique(a, input, pb, pa);
    assert(pa =~= pb);
    if a.ended(input) {
        let n1 = choose|n: nat| a.reach_in(input, input.len(), n, a.eof.0 as int, q1[0].group());
        lemma_plain_groups(a, input, input.len(), n1, a.eof.0 as int, q1[0].group());
        let n2 = choose|n: nat| a.reach_in(input, input.len(), n, a.eof.0 as int, q2[0].group());
        lemma_plain_groups(a, input, input.len(), n2, a.eof.0 as int, q2[0].group());
    }
    assert(q1 =~= q2);
    assert(r1 =~= pa + q1);
    assert(r2 =~= pb + q2);
}

/// The shape of a compiled automaton: the end-of-input state comes first,
/// the one accepting state second, and every other state consumes or
/// splits; so it has no group markers.
pub proof fn lemma_compiled_shape(tokens: Seq<Token>)
    requires
        tokens.len() + 2 <= usize::MAX,
        compile_spec(tokens) is Ok,
    ensures
        ({
            let a = compile_spec(tokens)->Ok_0;
            &&& a.wf()
            &&& a.plain()
            &&& a.eof == State(0)
            &&& a.accept == State(1)
            &&& a.ts[0] is Eof
            &&& a.ts[1] is Accept
            &&& forall|i: int| 2 <= i < a.ts.len() ==> (#[trigger] a.ts[i]) is Label || a.ts[i] is Split
        }),
{
    let b = builder_run(tokens, tokens.len())->Ok_0;
    lemma_builder_run_ok(tokens, tokens.len());
    let a = compile_spec(tokens)->Ok_0;
    if b.stack.len() == 1 {
        assert(frag_ok(b.ts, b.stack[0]));
        super::thompson::lemma_patched_within(b.ts, b.stack[0].out, State(1));
        assert(!b.stack[0].out.contains(State(0usize)));
        assert(!b.stack[0].out.contains(State(1usize)));
    }
    assert forall|i: int| 2 <= i < a.ts.len() implies (#[trigger] a.ts[i]) is Label || a.ts[i] is Split by {
        assert(b.ts[i] is Label || b.ts[i] is Split);
    }
    assert forall|i: int| 0 <= i < a.ts.len() implies !((#[trigger] a.ts[i]) is Group) by {
        if i >= 2 {
            assert(a.ts[i] is Label || a.ts[i] is Split);
        }
    }
}

/// Anchoring: every match of an input is the length in bytes of a prefix of
/// the input, which starts at the first character of the input, and so is no
/// longer than the input.
pub proof fn lemma_matches_anchored(a: Automaton, input: Seq<char>, i: int)
    requires
        a.wf(),
        utf8_len(input) <= usize::MAX,
        0 <= i < a.matches(input).len(),
    ensures
        is_prefix_len(input, a.matches(input)[i].size() as int),
        a.matches(input)[i].size() <= utf8_len(input),
{
    super::sound::lemma_matches_report(a, input);
    lemma_report_anchored(a, input, a.matches(input), i);
}

/// Longest match per group: where no prefix of the input is matched in two
/// groups, and no group both accepts a prefix and leads the whole input to
/// the end-of-input state, the matches hold each group at most once, with
/// the length of the longest prefix that is matched in it, and hold every
/// group in which a prefix is matched.
pub proof fn lemma_longest_per_group(a: Automaton, input: Seq<char>)
    requires
        a.wf(),
        utf8_len(input) <= usize::MAX,
        forall|j: nat, g: Group, h: Group|
            j <= input.len() && #[trigger] a.matched_at(input, j, g) && #[trigger] a.matched_at(
                input,
                j,
                h,
            ) ==> g == h,
        forall|j: nat, g: Group|
            j <= input.len() && #[trigger] a.accepts_at(input, j, g) ==> !a.ends_at(input, g),
    ensures
        forall|x: int, y: int|
            0 <= x < y < a.matches(input).len() ==> (#[trigger] a.matches(input)[x]).group() != (
            #[trigger] a.matches(input)[y]).group(),
        forall|x: int|
            0 <= x < a.matches(input).len() ==> exists|j: nat|
                j <= input.len() && (#[trigger] a.matches(input)[x]).size() == utf8_len(
                    input.take(j as int),
                ) && #[trigger] a.matched_at(input, j, a.matches(input)[x].group()),
        forall|x: int, j: nat|
            0 <= x < a.matches(input).len() && j <= input.len() && #[trigger] a.matched_at(
                input,
                j,
                (#[trigger] a.matches(input)[x]).group(),
            ) ==> utf8_len(input.take(j as int)) <= a.matches(input)[x].size(),
        forall|j: nat, g: Group|
            j <= input.len() && #[trigger] a.matched_at(input, j, g) ==> exists|x: int|
                0 <= x < a.matches(input).len() && (#[trigger] a.matches(input)[x]).group() == g,
{
    super::sound::lemma_matches_report(a, input);
    lemma_report_longest_per_group(a, input, a.matches(input));
}

/// No state revisits: after every number of characters the simulation
/// holds no state active twice, and holds exactly the states active in
/// which the automaton can rest.
pub proof fn lemma_no_state_twice(a: Automaton, input: Seq<char>, k: nat)
    requires
        a.wf(),
        k <= input.len(),
        utf8_len(input) <= usize::MAX,
    ensures
        super::sound::distinct_states(a.run(input, k).list),
        super::sound::frontier_ok(a, input, k, a.run(input, k).list),
{
    super::sound::lemma_run_sound(a, input, k);
}

/// What holds of a collection of active states whatever it is made from:
/// the states found are resting states that have been seen in this step,
/// none occurs twice, and there are no more of them than states that have
/// been seen.
pub open spec fn neat(a: Automaton, at: super::model::Swept) -> bool {
    &&& at.seen.len() == a.ts.len()
    &&& forall|i: int|
        0 <= i < at.list.len() ==> a.rests((#[trigger] at.list[i]).1.0 as int) && at.seen[at.list[i].1.0 as int]
    &&& super::sound::distinct_states(at.list)
    &&& at.list.len() + super::model::unseen(at.seen) <= a.ts.len()
}

/// No more states are unseen than there are states.
proof fn lemma_unseen_bound(seen: Seq<bool>)
    ensures
        super::model::unseen(seen) <= seen.len(),
    decreases seen.len(),
{
    if seen.len() > 0 {
        lemma_unseen_bound(seen.drop_last());
    }
}

/// Looking at states keeps the collection neat.
pub proof fn lemma_sweep_neat(
    a: Automaton,
    at: super::model::Swept,
    work: Seq<super::model::Entry>,
    size: usize,
)
    requires
        neat(a, at),
    ensures
        neat(a, a.sweep(at, work, size)),
    decreases super::model::unseen(at.seen), work.len(),
{
    if work.len() > 0 {
        let label = work.last().0;
        let state = work.last().1;
        let s = state.0 as int;
        let rest = work.drop_last();
        if !(state.0 < at.seen.len()) || !(state.0 < a.ts.len()) {
            lemma_sweep_neat(a, at, rest, size);
        } else if at.seen[s] {
            let next = super::model::Swept {
                seen: at.seen,
                list: at.list,
                hits: a.hit(at.hits, label, state, size),
            };
            lemma_sweep_neat(a, next, rest, size);
        } else {
            super::model::lemma_unseen_mark(at.seen, s);
            let seen = at.seen.update(s, true);
            if a.ts[s] is Split || a.ts[s] is Group {
                let work3 = match a.ts[s] {
                    super::nfa::Transition::Split(e1, e2) => super::model::with_state(
                        super::model::with_state(rest, label, e2),
                        label,
                        e1,
                    ),
                    super::nfa::Transition::Group(l, e) => rest.push((Some(l), e)),
                    _ => work,
                };
                let next = super::model::Swept { seen, list: at.list, hits: at.hits };
                assert(a.sweep(at, work, size) == a.sweep(next, work3, size));
                lemma_sweep_neat(a, next, work3, size);
            } else {
                let list = at.list.push((label, state));
                let hits = if a.ts[s] is Eof {
                    at.hits
                } else {
                    a.hit(at.hits, label, state, size)
                };
                let next = super::model::Swept { seen, list, hits };
                assert(a.sweep(at, work, size) == a.sweep(next, rest, size));
                assert forall|i: int| 0 <= i < list.len() implies a.rests((#[trigger] list[i]).1.0 as int)
                    && seen[list[i].1.0 as int] by {
                    if i < at.list.len() {
                        assert(list[i] == at.list[i]);
                    }
                }
                assert forall|i: int, j: int| 0 <= i < j < list.len() implies (#[trigger] list[i]).1 != (
                #[trigger] list[j]).1 by {
                    assert(list[i] == at.list[i]);
                    if j < at.list.len() {
                        assert(list[j] == at.list[j]);
                    } else {
                        assert(at.seen[at.list[i].1.0 as int]);
                    }
                }
                lemma_sweep_neat(a, next, rest, size);
            }
        }
    }
}

/// Stepping active states keeps the collection neat.
pub proof fn lemma_stepped_neat(
    a: Automaton,
    current: Seq<super::model::Entry>,
    i: nat,
    c: char,
    at: super::model::Swept,
    size: usize,
)
    requires
        neat(a, at),
    ensures
        neat(a, a.stepped(current, i, c, at, size)),
    decreases current.len() - i,
{
    if i < current.len() {
        let label = current[i as int].0;
        let s = current[i as int].1;
        let next = if s.0 < a.ts.len() {
            match a.ts[s.0 as int] {
                super::nfa::Transition::Label(cond, e) => if cond.spec_accepts(c) {
                    lemma_sweep_neat(a, at, seq![(label, e)], size);
                    a.sweep(at, seq![(label, e)], size)
                } else {
                    at
                },
                _ => at,
            }
        } else {
            at
        };
        lemma_stepped_neat(a, current, i + 1, c, next, size);
    }
}

/// No state revisits, of one step: whatever states are active, and whether
/// or not they can be reached, stepping them with a character gives active
/// states none of which occurs twice. Each of them consumes, accepts or
/// waits for the end of input, and there are no more of them than the
/// automaton has states.
pub proof fn lemma_step_no_state_twice(
    a: Automaton,
    current: Seq<super::model::Entry>,
    c: char,
    hits: Seq<super::model::Hit>,
    size: usize,
)
    ensures
        ({
            let r = a.stepped(
                current,
                0,
                c,
                super::model::Swept { seen: a.unmarked(), list: Seq::empty(), hits },
                size,
            );
            &&& super::sound::distinct_states(r.list)
            &&& r.list.len() <= a.ts.len()
            &&& forall|i: int| 0 <= i < r.list.len() ==> a.rests((#[trigger] r.list[i]).1.0 as int)
        }),
{
    let at = super::model::Swept { seen: a.unmarked(), list: Seq::empty(), hits };
    lemma_unseen_bound(at.seen);
    lemma_stepped_neat(a, current, 0, c, at, size);
}

/// A compiled automaton has no groups: its matches are at most the longest
/// accepted prefix and the end of input.
pub proof fn lemma_compiled_matches(tokens: Seq<Token>, input: Seq<char>)
    requires
        tokens.len() + 2 <= usize::MAX,
        utf8_len(input) <= usize::MAX,
        compile_spec(tokens) is Ok,
    ensures
        ({
            let a = compile_spec(tokens)->Ok_0;
            let r = a.matches(input);
            &&& r.len() <= 2
            &&& forall|i: int| 0 <= i < r.len() ==> (#[trigger] r[i]) is NoGroup
            &&& r.len() == 0 <==> !a.ended(input) && forall|j: nat|
                j <= input.len() ==> !#[trigger] a.accepted(input, j)
        }),
{
    let a = compile_spec(tokens)->Ok_0;
    let r = a.matches(input);
    lemma_compiled_shape(tokens);
    super::sound::lemma_matches_report(a, input);
    let m = choose|m: int|
        0 <= m <= r.len() && #[trigger] a.accept_report(input, r.take(m)) && a.end_report(
            input,
            r.skip(m),
        );
    let p = r.take(m);
    let q = r.skip(m);
    lemma_plain_accept_unique(a, input, p, p);
    assert forall|i: int| 0 <= i < r.len() implies (#[trigger] r[i]) is NoGroup by {
        if i < m {
            assert(p[i] == r[i]);
        } else {
            assert(q[0] == r[i]);
            let n = choose|n: nat| a.reach_in(input, input.len(), n, a.eof.0 as int, q[0].group());
            lemma_plain_groups(a, input, input.len(), n, a.eof.0 as int, q[0].group());
        }
    }
    if r.len() == 0 {
        assert forall|j: nat| j <= input.len() implies !#[trigger] a.accepted(input, j) by {
            if a.accepted(input, j) {
                let x = choose|x: int|
                    0 <= x < p.len() && a.accepts_at(input, j, (#[trigger] p[x]).group()) && p[x].size()
                        >= utf8_len(input.take(j as int));
            }
        }
    } else if m > 0 {
        let j = choose|j: nat|
            j <= input.len() && p[0].size() == utf8_len(input.take(j as int)) && #[trigger] a.accepts_at(
                input,
                j,
                p[0].group(),
            );
        assert(a.accepted(input, j));
    }
}

} // verus!
