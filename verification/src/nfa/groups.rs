//! Why every group keeps its own longest prefix: where the automaton comes
//! to each state in one group only, the accepting state and the
//! end-of-input state apart, the hits hold for every group the longest
//! prefix that is accepted in it.

use vstd::prelude::*;
use super::model::{lemma_unseen_mark, noted, unseen, with_state, Automaton, Entry, Hit, Swept};
use super::nfa::Transition;
use super::sound::{
    distinct_groups, entry_at, frontier_ok, has_state, lemma_eps_swept, lemma_noted_index,
    lemma_rest_swept, lemma_run_sound, lemma_seen_swept, lemma_step_work, lemma_stepped_one,
    lemma_sweep_sound, seen_set, stepped_inv, stepped_one, sweep_inv,
};
use crate::language::{group_of, match_of, Group, Label, Match};
use crate::text::{lemma_utf8_len_prefix, utf8_len};

verus! {

/// Some hit of the group `g` is `size` bytes long.
pub open spec fn noted_for(hits: Seq<Hit>, g: Group, size: nat) -> bool {
    exists|i: int| 0 <= i < hits.len() && group_of((#[trigger] hits[i]).0) == g && hits[i].1 == size
}

/// Some hit of the group `g` is at least `size` bytes long.
pub open spec fn kept_for(hits: Seq<Hit>, g: Group, size: nat) -> bool {
    exists|i: int| 0 <= i < hits.len() && group_of((#[trigger] hits[i]).0) == g && hits[i].1 >= size
}

/// No hit is longer than `size` bytes.
pub open spec fn bounded(hits: Seq<Hit>, size: nat) -> bool {
    forall|i: int| 0 <= i < hits.len() ==> (#[trigger] hits[i]).1 <= size
}

/// Some entry of `work` is at the state `s` in the group `g`.
pub open spec fn work_holds(work: Seq<Entry>, s: int, g: Group) -> bool {
    exists|i: int| 0 <= i < work.len() && (#[trigger] work[i]).1.0 == s && group_of(work[i].0) == g
}

impl Automaton {
    /// After `k` characters of `input` the automaton can be in each state
    /// in one group only, the accepting state and the end-of-input state
    /// apart.
    pub open spec fn one_group(self, input: Seq<char>, k: nat) -> bool {
        forall|s: int, g: Group, h: Group|
            #[trigger] self.reach(input, k, s, g) && #[trigger] self.reach(input, k, s, h) && s
                != self.accept.0 && s != self.eof.0 ==> g == h
    }

    /// After any number of characters of `input` the automaton can be in
    /// each state in one group only, the accepting state and the
    /// end-of-input state apart.
    pub open spec fn sorted(self, input: Seq<char>) -> bool {
        forall|k: nat| k <= input.len() ==> #[trigger] self.one_group(input, k)
    }
}

/// Every prefix of fewer than `done` characters that is accepted in a group
/// is covered by a hit of that group.
pub open spec fn full(a: Automaton, input: Seq<char>, done: nat, hits: Seq<Hit>) -> bool {
    forall|j: nat, g: Group|
        j < done && #[trigger] a.accepts_at(input, j, g) ==> kept_for(
            hits,
            g,
            utf8_len(input.take(j as int)),
        )
}

/// What holds of the accepting state while the states after `k` characters
/// are collected: where a state that has been seen leads to it without
/// consuming, the hit of the group in which it is come to is recorded, or
/// the accepting state is still to be looked at in that group.
pub open spec fn accept_inv(
    a: Automaton,
    input: Seq<char>,
    k: nat,
    vis: Set<int>,
    work: Seq<Entry>,
    hits: Seq<Hit>,
    size: nat,
) -> bool {
    forall|u: int, gu: Group, h: Group|
        vis.contains(u) && a.reach(input, k, u, gu) && #[trigger] a.eps_move(
            u,
            gu,
            a.accept.0 as int,
            h,
        ) ==> noted_for(hits, h, size) || work_holds(work, a.accept.0 as int, h)
}

/// Recording a hit keeps what the hits hold, and holds the new one.
pub proof fn lemma_note(hits: Seq<Hit>, label: Option<Label>, size: usize)
    requires
        distinct_groups(hits),
        bounded(hits, size as nat),
    ensures
        distinct_groups(noted(hits, label, size)),
        bounded(noted(hits, label, size), size as nat),
        noted_for(noted(hits, label, size), group_of(label), size as nat),
        forall|h: Group| #[trigger]
            noted_for(hits, h, size as nat) ==> noted_for(noted(hits, label, size), h, size as nat),
        forall|h: Group, sz: nat| #[trigger]
            kept_for(hits, h, sz) ==> kept_for(noted(hits, label, size), h, sz),
{
    let after = noted(hits, label, size);
    let idx = lemma_noted_index(hits, label, size);
    assert forall|i: int| 0 <= i < after.len() implies (#[trigger] after[i]).1 <= size by {
        if i != idx {
            assert(after[i] == hits[i]);
        }
    }
    assert(group_of(after[idx].0) == group_of(label) && after[idx].1 == size);
    assert forall|h: Group| #[trigger] noted_for(hits, h, size as nat) implies noted_for(
        after,
        h,
        size as nat,
    ) by {
        let i = choose|i: int|
            0 <= i < hits.len() && group_of((#[trigger] hits[i]).0) == h && hits[i].1 == size;
        if i == idx {
            assert(group_of(after[idx].0) == h && after[idx].1 == size);
        } else {
            assert(after[i] == hits[i]);
            assert(group_of(after[i].0) == h && after[i].1 == size);
        }
    }
    assert forall|h: Group, sz: nat| #[trigger] kept_for(hits, h, sz) implies kept_for(after, h, sz) by {
        let i = choose|i: int|
            0 <= i < hits.len() && group_of((#[trigger] hits[i]).0) == h && hits[i].1 >= sz;
        if i == idx {
            assert(hits[i].1 <= size);
            assert(group_of(after[idx].0) == h && after[idx].1 >= sz);
        } else {
            assert(after[i] == hits[i]);
            assert(group_of(after[i].0) == h && after[i].1 >= sz);
        }
    }
}

/// Coming to a state keeps what the hits hold; coming to the accepting
/// state records the hit of the group.
pub proof fn lemma_hit(a: Automaton, hits: Seq<Hit>, label: Option<Label>, s: super::state::State, size: usize)
    requires
        a.tidy(),
        distinct_groups(hits),
        bounded(hits, size as nat),
    ensures
        distinct_groups(a.hit(hits, label, s, size)),
        bounded(a.hit(hits, label, s, size), size as nat),
        s == a.accept ==> noted_for(a.hit(hits, label, s, size), group_of(label), size as nat),
        forall|h: Group| #[trigger]
            noted_for(hits, h, size as nat) ==> noted_for(a.hit(hits, label, s, size), h, size as nat),
        forall|h: Group, sz: nat| #[trigger]
            kept_for(hits, h, sz) ==> kept_for(a.hit(hits, label, s, size), h, sz),
{
    lemma_note(hits, label, size);
}

/// A work list without its last entry holds what it held, but for that
/// entry.
proof fn lemma_work_pop(work: Seq<Entry>, s: int, g: Group)
    requires
        work_holds(work, s, g),
    ensures
        work.len() > 0,
        work_holds(work.drop_last(), s, g) || (work.last().1.0 == s && group_of(work.last().0) == g),
{
    let i = choose|i: int| 0 <= i < work.len() && (#[trigger] work[i]).1.0 == s && group_of(work[i].0) == g;
    if i < work.len() - 1 {
        assert(work.drop_last()[i] == work[i]);
    }
}

/// A work list that begins as another holds what the other holds.
proof fn lemma_work_keep(rest: Seq<Entry>, work: Seq<Entry>, s: int, g: Group)
    requires
        work_holds(rest, s, g),
        rest.len() <= work.len(),
        forall|i: int| 0 <= i < rest.len() ==> work[i] == rest[i],
    ensures
        work_holds(work, s, g),
{
    let i = choose|i: int| 0 <= i < rest.len() && (#[trigger] rest[i]).1.0 == s && group_of(rest[i].0) == g;
    assert(work[i] == rest[i]);
}

/// What the collection of the active states records: when the states in
/// `work` have been looked at, the hit of every group is recorded in which
/// the accepting state was come to.
pub proof fn lemma_sweep_notes(a: Automaton, input: Seq<char>, k: nat, at: Swept, work: Seq<Entry>, size: usize)
    requires
        a.tidy(),
        k <= input.len(),
        at.seen.len() == a.ts.len(),
        a.one_group(input, k),
        sweep_inv(a, input, k, seen_set(at.seen), at.list, work),
        distinct_groups(at.hits),
        bounded(at.hits, size as nat),
        accept_inv(a, input, k, seen_set(at.seen), work, at.hits, size as nat),
    ensures
        ({
            let r = a.sweep(at, work, size);
            &&& distinct_groups(r.hits)
            &&& bounded(r.hits, size as nat)
            &&& accept_inv(a, input, k, seen_set(r.seen), Seq::empty(), r.hits, size as nat)
            &&& forall|h: Group| #[trigger]
                noted_for(at.hits, h, size as nat) ==> noted_for(r.hits, h, size as nat)
            &&& forall|h: Group, sz: nat| #[trigger] kept_for(at.hits, h, sz) ==> kept_for(r.hits, h, sz)
            &&& forall|i: int|
                0 <= i < work.len() && (#[trigger] work[i]).1 == a.accept ==> noted_for(
                    r.hits,
                    group_of(work[i].0),
                    size as nat,
                )
        }),
    decreases unseen(at.seen), work.len(),
{
    let vis0 = seen_set(at.seen);
    let acc = a.accept.0 as int;
    let sz = size as nat;
    if work.len() == 0 {
        assert forall|u: int, gu: Group, h: Group|
            vis0.contains(u) && a.reach(input, k, u, gu) && #[trigger] a.eps_move(
                u,
                gu,
                acc,
                h,
            ) implies noted_for(at.hits, h, sz) || work_holds(Seq::<Entry>::empty(), acc, h) by {
            if work_holds(work, acc, h) {
                lemma_work_pop(work, acc, h);
            }
        }
    } else {
        let label = work.last().0;
        let state = work.last().1;
        let s = state.0 as int;
        let rest = work.drop_last();
        assert(entry_at(a, input, k, work[work.len() - 1]));
        assert forall|i: int| 0 <= i < rest.len() implies rest[i] == work[i] by {}
        if at.seen[s] || !(a.ts[s] is Split || a.ts[s] is Group) {
            // The state is passed over, or joins the active states.
            let hits = if at.seen[s] || !(a.ts[s] is Eof) {
                a.hit(at.hits, label, state, size)
            } else {
                at.hits
            };
            lemma_hit(a, at.hits, label, state, size);
            let next = if at.seen[s] {
                Swept { seen: at.seen, list: at.list, hits }
            } else {
                Swept { seen: at.seen.update(s, true), list: at.list.push((label, state)), hits }
            };
            assert(a.sweep(at, work, size) == a.sweep(next, rest, size));
            let vis1 = seen_set(next.seen);
            if at.seen[s] {
                lemma_seen_swept(a, input, k, vis0, at.list, work);
            } else {
                lemma_unseen_mark(at.seen, s);
                assert(vis1 =~= vis0.insert(s));
                lemma_rest_swept(a, input, k, vis0, at.list, work, (label, state));
            }
            assert(accept_inv(a, input, k, vis1, rest, hits, sz)) by {
                assert forall|u: int, gu: Group, h: Group|
                    vis1.contains(u) && a.reach(input, k, u, gu) && #[trigger] a.eps_move(
                        u,
                        gu,
                        acc,
                        h,
                    ) implies noted_for(hits, h, sz) || work_holds(rest, acc, h) by {
                    assert(vis0.contains(u));
                    if noted_for(at.hits, h, sz) {
                    } else {
                        lemma_work_pop(work, acc, h);
                    }
                }
            }
            lemma_sweep_notes(a, input, k, next, rest, size);
            let r = a.sweep(next, rest, size);
            assert forall|h: Group| #[trigger] noted_for(at.hits, h, sz) implies noted_for(r.hits, h, sz) by {
                assert(noted_for(hits, h, sz));
            }
            assert forall|h: Group, z: nat| #[trigger] kept_for(at.hits, h, z) implies kept_for(
                r.hits,
                h,
                z,
            ) by {
                assert(kept_for(hits, h, z));
            }
            assert forall|i: int| 0 <= i < work.len() && (#[trigger] work[i]).1 == a.accept implies noted_for(
                r.hits,
                group_of(work[i].0),
                sz,
            ) by {
                if i < rest.len() {
                    assert(rest[i] == work[i]);
                } else {
                    assert(noted_for(hits, group_of(label), sz));
                }
            }
        } else {
            // A state that consumes nothing gives its successors to look at.
            lemma_unseen_mark(at.seen, s);
            let seen = at.seen.update(s, true);
            let vis1 = vis0.insert(s);
            assert(seen_set(seen) =~= vis1);
            let work3 = match a.ts[s] {
                Transition::Split(e1, e2) => with_state(with_state(rest, label, e2), label, e1),
                Transition::Group(l, e) => rest.push((Some(l), e)),
                _ => work,
            };
            let next = Swept { seen, list: at.list, hits: at.hits };
            assert(a.sweep(at, work, size) == a.sweep(next, work3, size));
            lemma_eps_swept(a, input, k, vis0, at.list, work);
            assert forall|i: int| 0 <= i < rest.len() implies work3[i] == rest[i] by {}
            assert(accept_inv(a, input, k, vis1, work3, at.hits, sz)) by {
                assert forall|u: int, gu: Group, h: Group|
                    vis1.contains(u) && a.reach(input, k, u, gu) && #[trigger] a.eps_move(
                        u,
                        gu,
                        acc,
                        h,
                    ) implies noted_for(at.hits, h, sz) || work_holds(work3, acc, h) by {
                    if u == s {
                        assert(a.reach(input, k, s, group_of(label)));
                        assert(gu == group_of(label));
                        match a.ts[s] {
                            Transition::Split(e1, e2) => {
                                let work2 = with_state(rest, label, e2);
                                let first = e1->0;
                                if e1 is Some && first.0 == acc {
                                    let x = first;
                                    assert(work3.last() == (label, x));
                                    assert(work3[work3.len() - 1].1.0 == acc);
                                } else {
                                    let y = e2->0;
                                    assert(work2.last() == (label, y));
                                    if e1 is Some {
                                        assert(work3[work2.len() - 1] == (label, y));
                                    } else {
                                        assert(work3[work3.len() - 1] == (label, y));
                                    }
                                }
                            },
                            _ => {},
                        }
                    } else {
                        assert(vis0.contains(u));
                        if !noted_for(at.hits, h, sz) {
                            lemma_work_pop(work, acc, h);
                            lemma_work_keep(rest, work3, acc, h);
                        }
                    }
                }
            }
            lemma_sweep_notes(a, input, k, next, work3, size);
            let r = a.sweep(next, work3, size);
            assert forall|i: int| 0 <= i < work.len() && (#[trigger] work[i]).1 == a.accept implies noted_for(
                r.hits,
                group_of(work[i].0),
                sz,
            ) by {
                assert(work3[i] == work[i]);
            }
        }
    }
}

/// What holds of the accepting state while the active states are stepped
/// with a character: where one of the states that have been stepped leads
/// to it by that character, the hit of its group is recorded.
pub open spec fn char_inv(
    a: Automaton,
    input: Seq<char>,
    k: nat,
    current: Seq<Entry>,
    i: nat,
    hits: Seq<Hit>,
    size: nat,
) -> bool {
    forall|i0: int|
        0 <= i0 < i && #[trigger] a.char_move(
            current[i0].1.0 as int,
            input[k as int],
            a.accept.0 as int,
        ) ==> noted_for(hits, group_of(current[i0].0), size)
}

/// Stepping the active states with a character records the hit of every
/// group in which the accepting state is come to.
pub proof fn lemma_stepped_notes(
    a: Automaton,
    input: Seq<char>,
    k: nat,
    current: Seq<Entry>,
    i: nat,
    at: Swept,
    size: usize,
)
    requires
        a.tidy(),
        k < input.len(),
        i <= current.len(),
        size == utf8_len(input.take(k as int + 1)),
        frontier_ok(a, input, k, current),
        stepped_inv(a, input, k, current, i, at),
        a.one_group(input, k + 1),
        distinct_groups(at.hits),
        bounded(at.hits, size as nat),
        accept_inv(a, input, k + 1, seen_set(at.seen), Seq::empty(), at.hits, size as nat),
        char_inv(a, input, k, current, i, at.hits, size as nat),
    ensures
        ({
            let r = a.stepped(current, i, input[k as int], at, size);
            &&& stepped_inv(a, input, k, current, current.len(), r)
            &&& distinct_groups(r.hits)
            &&& bounded(r.hits, size as nat)
            &&& accept_inv(a, input, k + 1, seen_set(r.seen), Seq::empty(), r.hits, size as nat)
            &&& char_inv(a, input, k, current, current.len(), r.hits, size as nat)
            &&& forall|h: Group, sz: nat| #[trigger] kept_for(at.hits, h, sz) ==> kept_for(r.hits, h, sz)
        }),
    decreases current.len() - i,
{
    let c = input[k as int];
    let sz = size as nat;
    let acc = a.accept.0 as int;
    if i < current.len() {
        let label = current[i as int].0;
        let s = current[i as int].1;
        assert(entry_at(a, input, k, current[i as int]));
        lemma_stepped_one(a, input, k, current, i, at, size);
        let next = stepped_one(a, current, i, c, at, size);
        let stepping = a.ts[s.0 as int] matches Transition::Label(cond, _) && cond.spec_accepts(c);
        if stepping {
            lemma_step_work(a, input, k, current, i, at);
            let e = a.ts[s.0 as int]->Label_1;
            let work = seq![(label, e)];
            assert(work[0] == (label, e));
            assert(accept_inv(a, input, k + 1, seen_set(at.seen), work, at.hits, sz));
            lemma_sweep_notes(a, input, k + 1, at, work, size);
            assert(next == a.sweep(at, work, size));
            assert(char_inv(a, input, k, current, i + 1, next.hits, sz)) by {
                assert forall|i0: int|
                    0 <= i0 < i + 1 && #[trigger] a.char_move(
                        current[i0].1.0 as int,
                        input[k as int],
                        acc,
                    ) implies noted_for(next.hits, group_of(current[i0].0), sz) by {
                    if i0 < i {
                        assert(noted_for(at.hits, group_of(current[i0].0), sz));
                    } else {
                        assert(work[0].1 == a.accept);
                    }
                }
            }
        } else {
            assert(next == at);
        }
        lemma_stepped_notes(a, input, k, current, i + 1, next, size);
        let r = a.stepped(current, i + 1, c, next, size);
        assert forall|h: Group, z: nat| #[trigger] kept_for(at.hits, h, z) implies kept_for(r.hits, h, z) by {
            assert(kept_for(next.hits, h, z));
        }
    }
}

/// After every number of characters the hits hold, for every group, a
/// prefix at least as long as each that was accepted in the group up to
/// then.
pub proof fn lemma_run_full(a: Automaton, input: Seq<char>, k: nat)
    requires
        a.tidy(),
        a.sorted(input),
        k <= input.len(),
        utf8_len(input) <= usize::MAX,
    ensures
        full(a, input, k + 1, a.run(input, k).hits),
        distinct_groups(a.run(input, k).hits),
        bounded(a.run(input, k).hits, utf8_len(input.take(k as int))),
    decreases k,
{
    let acc = a.accept.0 as int;
    let none = Seq::<Entry>::empty();
    lemma_utf8_len_prefix(input, k as int, input.len() as int);
    assert(input.take(input.len() as int) == input);
    let size = utf8_len(input.take(k as int)) as usize;
    let sz = size as nat;
    assert(a.one_group(input, k));
    lemma_run_sound(a, input, k);
    if k == 0 {
        let at = Swept { seen: a.unmarked(), list: Seq::empty(), hits: Seq::empty() };
        let work = seq![(None::<Label>, a.start)];
        assert(seen_set(at.seen) =~= Set::<int>::empty());
        assert(input.take(0) =~= Seq::<char>::empty());
        assert(utf8_len(Seq::<char>::empty()) == 0);
        assert(a.reach_in(input, 0, 0, a.start.0 as int, None));
        assert(work[0] == (None::<Label>, a.start));
        lemma_sweep_sound(a, input, 0, at, work, 0);
        lemma_sweep_notes(a, input, 0, at, work, 0);
        let r = a.sweep(at, work, 0);
        let vis = seen_set(r.seen);
        assert(vis.contains(work[0].1.0 as int));
        assert forall|j: nat, g: Group| j < 1 && #[trigger] a.accepts_at(input, j, g) implies kept_for(
            r.hits,
            g,
            utf8_len(input.take(j as int)),
        ) by {
            let n = choose|n: nat| a.reach_in(input, 0, n, acc, g);
            let (j0, u, gu) = choose|j0: nat, u: int, gu: Group| #[trigger]
                a.moves(input, j0, u, gu, 0, acc, g) && a.reach_in(input, j0, (n - 1) as nat, u, gu);
            assert(a.reach(input, 0, u, gu));
            super::sound::lemma_seen_covers(a, input, 0, vis, r.list, u, gu);
            assert(a.eps_move(u, gu, acc, g));
            assert(noted_for(r.hits, g, 0) || work_holds(none, acc, g));
            if work_holds(none, acc, g) {
                lemma_work_pop(none, acc, g);
            }
        }
    } else {
        let j = (k - 1) as nat;
        lemma_run_full(a, input, j);
        lemma_run_sound(a, input, j);
        let before = a.run(input, j);
        let c = input[j as int];
        lemma_utf8_len_prefix(input, j as int, k as int);
        let at = Swept { seen: a.unmarked(), list: Seq::empty(), hits: before.hits };
        assert(seen_set(at.seen) =~= Set::<int>::empty());
        super::sound::lemma_hits_widen(a, input, k, j, before.hits);
        assert(stepped_inv(a, input, j, before.list, 0, at));
        lemma_stepped_notes(a, input, j, before.list, 0, at, size);
        let r = a.stepped(before.list, 0, c, at, size);
        let vis = seen_set(r.seen);
        assert forall|j0: nat, u: int, g0: Group, t0: int|
            j0 + 1 == k && a.reach(input, j0, u, g0) && #[trigger] a.moves(
                input,
                j0,
                u,
                g0,
                k,
                t0,
                g0,
            ) implies vis.contains(t0) by {
            assert(a.char_move(u, c, t0));
            assert(a.rests(u));
            assert(has_state(before.list, u));
            let i0 = choose|i0: int| 0 <= i0 < before.list.len() && (#[trigger] before.list[i0]).1.0 == u;
            assert(a.char_move(before.list[i0].1.0 as int, input[j as int], t0));
        }
        assert forall|j1: nat, g: Group|
            j1 < k + 1 && #[trigger] a.accepts_at(input, j1, g) implies kept_for(
            r.hits,
            g,
            utf8_len(input.take(j1 as int)),
        ) by {
            if j1 < k {
                assert(kept_for(before.hits, g, utf8_len(input.take(j1 as int))));
            } else {
                let n = choose|n: nat| a.reach_in(input, k, n, acc, g);
                let (j0, u, gu) = choose|j0: nat, u: int, gu: Group| #[trigger]
                    a.moves(input, j0, u, gu, k, acc, g) && a.reach_in(input, j0, (n - 1) as nat, u, gu);
                assert(a.reach(input, j0, u, gu));
                if j0 == k {
                    super::sound::lemma_seen_covers(a, input, k, vis, r.list, u, gu);
                    assert(a.eps_move(u, gu, acc, g));
                    assert(noted_for(r.hits, g, sz) || work_holds(none, acc, g));
                    if work_holds(none, acc, g) {
                        lemma_work_pop(none, acc, g);
                    }
                } else {
                    assert(a.char_move(u, c, acc));
                    assert(a.rests(u));
                    assert(has_state(before.list, u));
                    let i0 = choose|i0: int|
                        0 <= i0 < before.list.len() && (#[trigger] before.list[i0]).1.0 == u;
                    assert(entry_at(a, input, j, before.list[i0]));
                    assert(a.one_group(input, j));
                    assert(group_of(before.list[i0].0) == gu);
                    assert(a.char_move(before.list[i0].1.0 as int, input[j as int], acc));
                    assert(noted_for(r.hits, group_of(before.list[i0].0), sz));
                }
            }
        }
    }
}

/// The matches `p` hold every group once, with the longest prefix of
/// `input` that is accepted in it: no group twice; each is the length in
/// bytes of a prefix that is accepted in its group; and every prefix that is
/// accepted in a group is no longer than the match of that group, which is
/// there.
pub open spec fn each_longest(a: Automaton, input: Seq<char>, p: Seq<Match>) -> bool {
    &&& forall|x: int, y: int|
        0 <= x < y < p.len() ==> (#[trigger] p[x]).group() != (#[trigger] p[y]).group()
    &&& forall|x: int|
        0 <= x < p.len() ==> exists|j: nat|
            j <= input.len() && (#[trigger] p[x]).size() == utf8_len(input.take(j as int))
                && #[trigger] a.accepts_at(input, j, p[x].group())
    &&& forall|j: nat, g: Group|
        j <= input.len() && #[trigger] a.accepts_at(input, j, g) ==> exists|x: int|
            0 <= x < p.len() && (#[trigger] p[x]).group() == g && p[x].size() >= utf8_len(
                input.take(j as int),
            )
}

/// Longest match per group: where the automaton comes to each state in one
/// group only, the accepting state and the end-of-input state apart, the
/// matches of the accepted prefixes hold every group in which a prefix of
/// the input is accepted, once, with the longest such prefix.
pub proof fn lemma_each_longest(a: Automaton, input: Seq<char>)
    requires
        a.tidy(),
        a.sorted(input),
        utf8_len(input) <= usize::MAX,
    ensures
        each_longest(a, input, a.accepted_matches(input)),
        a.matches(input) == a.accepted_matches(input) + a.end_matches(input),
{
    let len = input.len();
    lemma_run_sound(a, input, len);
    lemma_run_full(a, input, len);
    let hits = a.run(input, len).hits;
    let p = a.accepted_matches(input);
    assert(p.len() == hits.len());
    assert forall|x: int| 0 <= x < p.len() implies (#[trigger] p[x]) == match_of(hits[x]) by {}
    assert forall|x: int, y: int| 0 <= x < y < p.len() implies (#[trigger] p[x]).group() != (
    #[trigger] p[y]).group() by {
        assert(group_of(hits[x].0) != group_of(hits[y].0));
    }
    assert forall|x: int| 0 <= x < p.len() implies exists|j: nat|
        j <= input.len() && (#[trigger] p[x]).size() == utf8_len(input.take(j as int))
            && #[trigger] a.accepts_at(input, j, p[x].group()) by {
        let j = choose|j: nat|
            j <= len && hits[x].1 == utf8_len(input.take(j as int)) && #[trigger] a.accepts_at(
                input,
                j,
                group_of(hits[x].0),
            );
        assert(a.accepts_at(input, j, p[x].group()));
    }
    assert forall|j: nat, g: Group| j <= input.len() && #[trigger] a.accepts_at(input, j, g) implies exists|
        x: int,
    |
        0 <= x < p.len() && (#[trigger] p[x]).group() == g && p[x].size() >= utf8_len(
            input.take(j as int),
        ) by {
        assert(kept_for(hits, g, utf8_len(input.take(j as int))));
        let x = choose|x: int|
            0 <= x < hits.len() && group_of((#[trigger] hits[x]).0) == g && hits[x].1 >= utf8_len(
                input.take(j as int),
            );
        assert(p[x].group() == g && p[x].size() >= utf8_len(input.take(j as int)));
    }
    assert(a.matches(input) =~= a.accepted_matches(input) + a.end_matches(input));
}

} // verus!
