//! Why the simulation finds what can be reached: the states that it holds
//! active are those that the automaton can be in, and its hits are the
//! prefixes that the automaton accepts.

use vstd::prelude::*;
use super::model::{lemma_unseen_mark, noted, unseen, with_state, Automaton, Entry, Hit, Swept};
use super::nfa::Transition;
use crate::language::{group_of, match_of, Group, Label};
use crate::text::{lemma_utf8_len_prefix, utf8_len};

verus! {

/// Some entry of `list` is at state `s`.
pub open spec fn has_state(list: Seq<Entry>, s: int) -> bool {
    exists|i: int| 0 <= i < list.len() && (#[trigger] list[i]).1.0 == s
}

/// No state occurs twice in `list`.
pub open spec fn distinct_states(list: Seq<Entry>) -> bool {
    forall|i: int, j: int| 0 <= i < j < list.len() ==> (#[trigger] list[i]).1 != (#[trigger] list[j]).1
}

/// No group occurs twice in `hits`.
pub open spec fn distinct_groups(hits: Seq<Hit>) -> bool {
    forall|i: int, j: int|
        0 <= i < j < hits.len() ==> group_of((#[trigger] hits[i]).0) != group_of(
            (#[trigger] hits[j]).0,
        )
}

/// The automaton can be at the entry's state, in the entry's group, after
/// `k` characters of `input`.
pub open spec fn entry_at(a: Automaton, input: Seq<char>, k: nat, e: Entry) -> bool {
    a.has(e.1.0 as int) && a.reach(input, k, e.1.0 as int, group_of(e.0))
}

/// `list` is the set of active states after `k` characters of `input`: each
/// entry is a resting state that can be reached in its group, no state
/// occurs twice, and every resting state that can be reached is there.
pub open spec fn frontier_ok(a: Automaton, input: Seq<char>, k: nat, list: Seq<Entry>) -> bool {
    &&& forall|i: int|
        0 <= i < list.len() ==> entry_at(a, input, k, #[trigger] list[i]) && a.rests(
            list[i].1.0 as int,
        )
    &&& distinct_states(list)
    &&& forall|s: int, g: Group| #[trigger] a.reach(input, k, s, g) && a.rests(s) ==> has_state(list, s)
}

/// What holds while the states reachable after `k` characters are being
/// collected: `vis` are the states seen so far, `list` the resting ones
/// among them, `work` the states still to be looked at.
pub open spec fn sweep_inv(
    a: Automaton,
    input: Seq<char>,
    k: nat,
    vis: Set<int>,
    list: Seq<Entry>,
    work: Seq<Entry>,
) -> bool {
    &&& forall|s: int| #[trigger] vis.contains(s) ==> a.has(s)
    &&& forall|i: int|
        0 <= i < list.len() ==> entry_at(a, input, k, #[trigger] list[i]) && a.rests(
            list[i].1.0 as int,
        ) && vis.contains(list[i].1.0 as int)
    &&& distinct_states(list)
    &&& forall|s: int| #[trigger] vis.contains(s) && a.rests(s) ==> has_state(list, s)
    &&& forall|i: int| 0 <= i < work.len() ==> entry_at(a, input, k, #[trigger] work[i])
    &&& forall|u: int, t: int|
        vis.contains(u) && #[trigger] a.eps_succ(u, t) ==> vis.contains(t) || has_state(work, t)
}

/// What holds of the recorded hits: no group twice; each hit is the length
/// of a prefix of at most `cur` characters accepted in its group; each
/// accepted prefix of fewer than `done` characters is covered by a hit.
pub open spec fn hits_ok(a: Automaton, input: Seq<char>, done: nat, cur: nat, hits: Seq<Hit>) -> bool {
    &&& distinct_groups(hits)
    &&& forall|i: int|
        0 <= i < hits.len() ==> exists|j: nat|
            j <= cur && (#[trigger] hits[i]).1 == utf8_len(input.take(j as int))
                && #[trigger] a.accepts_at(input, j, group_of(hits[i].0))
    &&& forall|j: nat|
        j < done && #[trigger] a.accepted(input, j) ==> exists|i: int|
            0 <= i < hits.len() && a.accepts_at(input, j, group_of((#[trigger] hits[i]).0))
                && hits[i].1 >= utf8_len(input.take(j as int))
}

/// If the accepting state has been seen after `k` characters, the hit is
/// recorded.
pub open spec fn hit_noted(a: Automaton, input: Seq<char>, k: nat, vis: Set<int>, hits: Seq<Hit>) -> bool {
    vis.contains(a.accept.0 as int) && a.accepting() ==> exists|i: int|
        0 <= i < hits.len() && a.accepts_at(input, k, group_of((#[trigger] hits[i]).0)) && hits[i].1
            == utf8_len(input.take(k as int))
}

/// The states that have been seen.
pub open spec fn seen_set(seen: Seq<bool>) -> Set<int> {
    Set::new(|s: int| 0 <= s < seen.len() && seen[s])
}

/// Recording a hit for a prefix that is accepted in its group keeps the
/// hits in order.
pub proof fn lemma_recorded(
    a: Automaton,
    input: Seq<char>,
    k: nat,
    before: Seq<Hit>,
    after: Seq<Hit>,
    idx: int,
    g: Group,
)
    requires
        hits_ok(a, input, k, k, before),
        k <= input.len(),
        a.accepts_at(input, k, g),
        distinct_groups(after),
        0 <= idx < after.len(),
        idx <= before.len(),
        group_of(after[idx].0) == g,
        after[idx].1 == utf8_len(input.take(k as int)),
        forall|i: int| 0 <= i < before.len() && i != idx ==> after[i] == before[i],
        idx < before.len() ==> after.len() == before.len() && group_of(before[idx].0) == g,
        idx == before.len() ==> after.len() == before.len() + 1,
    ensures
        hits_ok(a, input, k, k, after),
{
    assert forall|i: int| 0 <= i < after.len() implies exists|j: nat|
        j <= k && (#[trigger] after[i]).1 == utf8_len(input.take(j as int)) && #[trigger] a.accepts_at(
            input,
            j,
            group_of(after[i].0),
        ) by {
        if i == idx {
            assert(a.accepts_at(input, k, group_of(after[i].0)));
        } else {
            let j = choose|j: nat|
                j <= k && before[i].1 == utf8_len(input.take(j as int)) && #[trigger] a.accepts_at(
                    input,
                    j,
                    group_of(before[i].0),
                );
            assert(a.accepts_at(input, j, group_of(after[i].0)));
        }
    }
    assert forall|j: nat| j < k && #[trigger] a.accepted(input, j) implies exists|i: int|
        0 <= i < after.len() && a.accepts_at(input, j, group_of((#[trigger] after[i]).0))
            && after[i].1 >= utf8_len(input.take(j as int)) by {
        let i = choose|i: int|
            0 <= i < before.len() && a.accepts_at(input, j, group_of((#[trigger] before[i]).0))
                && before[i].1 >= utf8_len(input.take(j as int));
        if i == idx {
            lemma_utf8_len_prefix(input, j as int, k as int);
            assert(a.accepts_at(input, j, group_of(after[idx].0)));
        } else {
            assert(after[i] == before[i]);
        }
    }
}

/// A list with one more entry holds the states it held, and that of the
/// entry.
pub proof fn lemma_has_state_push(list: Seq<Entry>, e: Entry, s: int)
    requires
        has_state(list, s) || e.1.0 == s,
    ensures
        has_state(list.push(e), s),
{
    let after = list.push(e);
    if e.1.0 == s {
        assert(after[list.len() as int].1.0 == s);
    } else {
        let i = choose|i: int| 0 <= i < list.len() && (#[trigger] list[i]).1.0 == s;
        assert(after[i].1.0 == s);
    }
}

/// A state that a list holds is that of its last entry, or held by the list
/// without it.
pub proof fn lemma_has_state_pop(list: Seq<Entry>, s: int)
    requires
        has_state(list, s),
    ensures
        list.len() > 0,
        has_state(list.drop_last(), s) || list.last().1.0 == s,
{
    let i = choose|i: int| 0 <= i < list.len() && (#[trigger] list[i]).1.0 == s;
    if i < list.len() - 1 {
        assert(list.drop_last()[i].1.0 == s);
    }
}

/// One more move.
pub proof fn lemma_reach_move(
    a: Automaton,
    input: Seq<char>,
    j: nat,
    u: int,
    gu: Group,
    k: nat,
    t: int,
    g: Group,
)
    requires
        a.reach(input, j, u, gu),
        a.moves(input, j, u, gu, k, t, g),
    ensures
        a.reach(input, k, t, g),
{
    let n = choose|n: nat| a.reach_in(input, j, n, u, gu);
    assert(a.reach_in(input, k, n + 1, t, g));
}

/// One more move that consumes nothing.
pub proof fn lemma_reach_eps(a: Automaton, input: Seq<char>, k: nat, u: int, gu: Group, t: int, g: Group)
    requires
        a.reach(input, k, u, gu),
        a.eps_move(u, gu, t, g),
    ensures
        a.reach(input, k, t, g),
{
    lemma_reach_move(a, input, k, u, gu, k, t, g);
}

/// One more character.
pub proof fn lemma_reach_char(a: Automaton, input: Seq<char>, k: nat, u: int, g: Group, t: int)
    requires
        k < input.len(),
        a.reach(input, k, u, g),
        a.char_move(u, input[k as int], t),
    ensures
        a.reach(input, k + 1, t, g),
{
    lemma_reach_move(a, input, k, u, g, k + 1, t, g);
}

/// A set of states that holds the start (before any character) or every
/// state entered by the `k`-th character, and with a state its successors
/// that consume nothing, holds every state that can be reached after `k`
/// characters.
pub proof fn lemma_closed_covers(a: Automaton, input: Seq<char>, k: nat, vis: Set<int>, n: nat, t: int, g: Group)
    requires
        forall|u: int, t2: int| vis.contains(u) && #[trigger] a.eps_succ(u, t2) ==> vis.contains(t2),
        k == 0 ==> vis.contains(a.start.0 as int),
        forall|j: nat, u: int, g0: Group, t0: int|
            j + 1 == k && a.reach(input, j, u, g0) && #[trigger] a.moves(input, j, u, g0, k, t0, g0)
                ==> vis.contains(t0),
        a.reach_in(input, k, n, t, g),
    ensures
        vis.contains(t),
    decreases n,
{
    if n > 0 {
        let (j, u, gu) = choose|j: nat, u: int, gu: Group| #[trigger]
            a.moves(input, j, u, gu, k, t, g) && a.reach_in(input, j, (n - 1) as nat, u, gu);
        if j == k {
            lemma_closed_covers(a, input, k, vis, (n - 1) as nat, u, gu);
            assert(a.eps_succ(u, t));
        } else {
            assert(a.reach(input, j, u, gu));
        }
    }
}

/// A resting state that is looked at for the first time joins the list.
pub proof fn lemma_rest_swept(
    a: Automaton,
    input: Seq<char>,
    k: nat,
    vis0: Set<int>,
    list0: Seq<Entry>,
    work0: Seq<Entry>,
    e: Entry,
)
    requires
        sweep_inv(a, input, k, vis0, list0, work0),
        work0.len() > 0,
        work0.last() == e,
        !vis0.contains(e.1.0 as int),
        a.rests(e.1.0 as int),
    ensures
        sweep_inv(a, input, k, vis0.insert(e.1.0 as int), list0.push(e), work0.drop_last()),
{
    let vis1 = vis0.insert(e.1.0 as int);
    let list1 = list0.push(e);
    let work1 = work0.drop_last();
    assert(entry_at(a, input, k, work0[work0.len() - 1]));
    assert forall|i: int| 0 <= i < list1.len() implies entry_at(a, input, k, #[trigger] list1[i])
        && a.rests(list1[i].1.0 as int) && vis1.contains(list1[i].1.0 as int) by {
        if i < list0.len() {
            assert(list1[i] == list0[i]);
        }
    }
    assert forall|i: int, j: int| 0 <= i < j < list1.len() implies (#[trigger] list1[i]).1 != (
    #[trigger] list1[j]).1 by {
        if j == list0.len() {
            assert(list1[i] == list0[i]);
            assert(vis0.contains(list0[i].1.0 as int));
        } else {
            assert(list1[i] == list0[i]);
            assert(list1[j] == list0[j]);
        }
    }
    assert forall|s: int| #[trigger] vis1.contains(s) && a.rests(s) implies has_state(list1, s) by {
        lemma_has_state_push(list0, e, s);
    }
    assert forall|i: int| 0 <= i < work1.len() implies entry_at(a, input, k, #[trigger] work1[i]) by {
        assert(work1[i] == work0[i]);
    }
    assert forall|u: int, t2: int| vis1.contains(u) && #[trigger] a.eps_succ(u, t2) implies vis1.contains(
        t2,
    ) || has_state(work1, t2) by {
        if u != e.1.0 {
            assert(vis0.contains(u));
            if !vis0.contains(t2) {
                lemma_has_state_pop(work0, t2);
            }
        }
    }
}

/// After the states entered by the latest character have all been followed,
/// every state that can be reached has been seen.
pub proof fn lemma_seen_covers(
    a: Automaton,
    input: Seq<char>,
    k: nat,
    vis: Set<int>,
    list: Seq<Entry>,
    s: int,
    g: Group,
)
    requires
        sweep_inv(a, input, k, vis, list, Seq::empty()),
        k == 0 ==> vis.contains(a.start.0 as int),
        forall|j: nat, u: int, g0: Group, t0: int|
            j + 1 == k && a.reach(input, j, u, g0) && #[trigger] a.moves(input, j, u, g0, k, t0, g0)
                ==> vis.contains(t0),
        a.reach(input, k, s, g),
    ensures
        vis.contains(s),
{
    assert forall|u: int, t2: int| vis.contains(u) && #[trigger] a.eps_succ(u, t2) implies vis.contains(
        t2,
    ) by {
        if has_state(Seq::<Entry>::empty(), t2) {
            let i = choose|i: int|
                0 <= i < Seq::<Entry>::empty().len() && (#[trigger] Seq::<Entry>::empty()[i]).1.0 == t2;
        }
    }
    let n = choose|n: nat| a.reach_in(input, k, n, s, g);
    lemma_closed_covers(a, input, k, vis, n, s, g);
}

/// After the states entered by the latest character have all been followed,
/// the list is the set of active states.
pub proof fn lemma_sweep_done(
    a: Automaton,
    input: Seq<char>,
    k: nat,
    vis: Set<int>,
    list: Seq<Entry>,
    hits: Seq<Hit>,
)
    requires
        k <= input.len(),
        sweep_inv(a, input, k, vis, list, Seq::empty()),
        hits_ok(a, input, k, k, hits),
        hit_noted(a, input, k, vis, hits),
        k == 0 ==> vis.contains(a.start.0 as int),
        forall|j: nat, u: int, g0: Group, t0: int|
            j + 1 == k && a.reach(input, j, u, g0) && #[trigger] a.moves(input, j, u, g0, k, t0, g0)
                ==> vis.contains(t0),
    ensures
        frontier_ok(a, input, k, list),
        hits_ok(a, input, k + 1, k, hits),
{
    assert forall|u: int, t2: int| vis.contains(u) && #[trigger] a.eps_succ(u, t2) implies vis.contains(
        t2,
    ) by {
        if has_state(Seq::<Entry>::empty(), t2) {
            let i = choose|i: int|
                0 <= i < Seq::<Entry>::empty().len() && (#[trigger] Seq::<Entry>::empty()[i]).1.0 == t2;
        }
    }
    assert forall|s: int, g: Group| #[trigger] a.reach(input, k, s, g) && a.rests(s) implies has_state(
        list,
        s,
    ) by {
        let n = choose|n: nat| a.reach_in(input, k, n, s, g);
        lemma_closed_covers(a, input, k, vis, n, s, g);
    }
    assert forall|j: nat| j < k + 1 && #[trigger] a.accepted(input, j) implies exists|i: int|
        0 <= i < hits.len() && a.accepts_at(input, j, group_of((#[trigger] hits[i]).0)) && hits[i].1
            >= utf8_len(input.take(j as int)) by {
        if j == k {
            let g = choose|g: Group| a.accepts_at(input, k, g);
            let n = choose|n: nat| a.reach_in(input, k, n, a.accept.0 as int, g);
            lemma_closed_covers(a, input, k, vis, n, a.accept.0 as int, g);
        }
    }
    assert forall|i: int| 0 <= i < hits.len() implies exists|j: nat|
        j <= k && (#[trigger] hits[i]).1 == utf8_len(input.take(j as int)) && #[trigger] a.accepts_at(
            input,
            j,
            group_of(hits[i].0),
        ) by {
        let j = choose|j: nat|
            j <= k && hits[i].1 == utf8_len(input.take(j as int)) && #[trigger] a.accepts_at(
                input,
                j,
                group_of(hits[i].0),
            );
    }
}

/// What the hits say of prefixes of at most `cur` characters, they say of
/// prefixes of at most `cur + 1`.
pub proof fn lemma_hits_widen(a: Automaton, input: Seq<char>, done: nat, cur: nat, hits: Seq<Hit>)
    requires
        hits_ok(a, input, done, cur, hits),
    ensures
        hits_ok(a, input, done, cur + 1, hits),
{
    assert forall|i: int| 0 <= i < hits.len() implies exists|j: nat|
        j <= cur + 1 && (#[trigger] hits[i]).1 == utf8_len(input.take(j as int))
            && #[trigger] a.accepts_at(input, j, group_of(hits[i].0)) by {
        let j = choose|j: nat|
            j <= cur && hits[i].1 == utf8_len(input.take(j as int)) && #[trigger] a.accepts_at(
                input,
                j,
                group_of(hits[i].0),
            );
    }
}


/// Where a hit is recorded: at the first hit of its group, which keeps its
/// label, or at the end; the other hits stay as they are.
pub proof fn lemma_noted_index(hits: Seq<Hit>, label: Option<Label>, size: usize) -> (idx: int)
    requires
        distinct_groups(hits),
    ensures
        distinct_groups(noted(hits, label, size)),
        0 <= idx < noted(hits, label, size).len(),
        idx <= hits.len(),
        group_of(noted(hits, label, size)[idx].0) == group_of(label),
        noted(hits, label, size)[idx].1 == size,
        forall|i: int| 0 <= i < hits.len() && i != idx ==> noted(hits, label, size)[i] == hits[i],
        idx < hits.len() ==> noted(hits, label, size).len() == hits.len() && group_of(hits[idx].0)
            == group_of(label),
        idx == hits.len() ==> noted(hits, label, size).len() == hits.len() + 1,
        forall|i: int| 0 <= i < idx ==> group_of((#[trigger] hits[i]).0) != group_of(label),
    decreases hits.len(),
{
    let after = noted(hits, label, size);
    if hits.len() == 0 {
        0
    } else if group_of(hits[0].0) == group_of(label) {
        assert forall|i: int, j: int| 0 <= i < j < after.len() implies group_of(
            (#[trigger] after[i]).0,
        ) != group_of((#[trigger] after[j]).0) by {
            assert(after[j] == hits[j]);
            if i == 0 {
                assert(group_of(hits[0].0) != group_of(hits[j].0));
            } else {
                assert(after[i] == hits[i]);
            }
        }
        assert forall|i: int| 0 <= i < hits.len() && i != 0 implies after[i] == hits[i] by {
            assert(hits.drop_first()[i - 1] == hits[i]);
        }
        0
    } else {
        let tail = hits.drop_first();
        assert forall|i: int, j: int| 0 <= i < j < tail.len() implies group_of(
            (#[trigger] tail[i]).0,
        ) != group_of((#[trigger] tail[j]).0) by {
            assert(group_of(hits[i + 1].0) != group_of(hits[j + 1].0));
        }
        let sub = lemma_noted_index(tail, label, size);
        let rest = noted(tail, label, size);
        assert forall|i: int| 0 < i < after.len() implies after[i] == rest[i - 1] by {}
        assert forall|i: int, j: int| 0 <= i < j < after.len() implies group_of(
            (#[trigger] after[i]).0,
        ) != group_of((#[trigger] after[j]).0) by {
            if i == 0 {
                if j - 1 == sub {
                } else {
                    assert(rest[j - 1] == tail[j - 1]);
                    assert(group_of(hits[0].0) != group_of(hits[j].0));
                }
            } else {
                assert(group_of(rest[i - 1].0) != group_of(rest[j - 1].0));
            }
        }
        assert forall|i: int| 0 <= i < hits.len() && i != sub + 1 implies after[i] == hits[i] by {
            if i > 0 {
                assert(rest[i - 1] == tail[i - 1]);
            }
        }
        assert forall|i: int| 0 <= i < sub + 1 implies group_of((#[trigger] hits[i]).0) != group_of(
            label,
        ) by {
            if i > 0 {
                assert(group_of(tail[i - 1].0) != group_of(label));
            }
        }
        sub + 1
    }
}

/// A state that consumes nothing and is looked at for the first time gives
/// its successors to look at.
pub proof fn lemma_eps_swept(
    a: Automaton,
    input: Seq<char>,
    k: nat,
    vis0: Set<int>,
    list: Seq<Entry>,
    work0: Seq<Entry>,
)
    requires
        a.wf(),
        sweep_inv(a, input, k, vis0, list, work0),
        work0.len() > 0,
        !vis0.contains(work0.last().1.0 as int),
        a.ts[work0.last().1.0 as int] is Split || a.ts[work0.last().1.0 as int] is Group,
    ensures
        sweep_inv(
            a,
            input,
            k,
            vis0.insert(work0.last().1.0 as int),
            list,
            match a.ts[work0.last().1.0 as int] {
                Transition::Split(e1, e2) => with_state(
                    with_state(work0.drop_last(), work0.last().0, e2),
                    work0.last().0,
                    e1,
                ),
                Transition::Group(l, e) => work0.drop_last().push((Some(l), e)),
                _ => work0,
            },
        ),
{
    let label = work0.last().0;
    let s = work0.last().1.0 as int;
    let rest = work0.drop_last();
    let vis1 = vis0.insert(s);
    assert(entry_at(a, input, k, work0[work0.len() - 1]));
    assert(super::model::targets_within(a.ts[s], a.ts.len() as int));
    let work3 = match a.ts[s] {
        Transition::Split(e1, e2) => with_state(with_state(rest, label, e2), label, e1),
        Transition::Group(l, e) => rest.push((Some(l), e)),
        _ => work0,
    };
    assert forall|i: int| 0 <= i < rest.len() implies work3[i] == work0[i] by {}
    match a.ts[s] {
        Transition::Split(e1, e2) => {
            if let Some(x) = e1 {
                lemma_reach_eps(a, input, k, s, group_of(label), x.0 as int, group_of(label));
            }
            if let Some(y) = e2 {
                lemma_reach_eps(a, input, k, s, group_of(label), y.0 as int, group_of(label));
            }
            let work2 = with_state(rest, label, e2);
            assert forall|u: int, t2: int| vis1.contains(u) && #[trigger] a.eps_succ(u, t2) implies vis1.contains(
                t2,
            ) || has_state(work3, t2) by {
                if u == s {
                    if e1 matches Some(x) && x.0 == t2 {
                        assert(work3.last().1.0 == t2);
                    } else {
                        assert(e2 matches Some(y) && y.0 == t2);
                        if e1 is Some {
                            assert(work2.last().1.0 == t2);
                            assert(work3[work2.len() - 1].1.0 == t2);
                        } else {
                            assert(work3.last().1.0 == t2);
                        }
                    }
                } else {
                    assert(vis0.contains(u));
                    if !vis0.contains(t2) {
                        lemma_has_state_pop(work0, t2);
                        if has_state(rest, t2) {
                            let i = choose|i: int| 0 <= i < rest.len() && (#[trigger] rest[i]).1.0 == t2;
                            assert(work3[i].1.0 == t2);
                        }
                    }
                }
            }
            assert forall|i: int| 0 <= i < work3.len() implies entry_at(a, input, k, #[trigger] work3[i]) by {
                if i < rest.len() {
                    assert(work3[i] == work0[i]);
                }
            }
        },
        Transition::Group(l, e) => {
            lemma_reach_eps(a, input, k, s, group_of(label), e.0 as int, Some(l@));
            assert forall|u: int, t2: int| vis1.contains(u) && #[trigger] a.eps_succ(u, t2) implies vis1.contains(
                t2,
            ) || has_state(work3, t2) by {
                if u == s {
                    assert(work3.last().1.0 == t2);
                } else {
                    assert(vis0.contains(u));
                    if !vis0.contains(t2) {
                        lemma_has_state_pop(work0, t2);
                        if has_state(rest, t2) {
                            let i = choose|i: int| 0 <= i < rest.len() && (#[trigger] rest[i]).1.0 == t2;
                            assert(work3[i].1.0 == t2);
                        }
                    }
                }
            }
            assert forall|i: int| 0 <= i < work3.len() implies entry_at(a, input, k, #[trigger] work3[i]) by {
                if i < rest.len() {
                    assert(work3[i] == work0[i]);
                }
            }
        },
        _ => {},
    }
}

/// A state that has been seen already is passed over.
pub proof fn lemma_seen_swept(
    a: Automaton,
    input: Seq<char>,
    k: nat,
    vis0: Set<int>,
    list: Seq<Entry>,
    work0: Seq<Entry>,
)
    requires
        sweep_inv(a, input, k, vis0, list, work0),
        work0.len() > 0,
        vis0.contains(work0.last().1.0 as int),
    ensures
        sweep_inv(a, input, k, vis0, list, work0.drop_last()),
{
    let rest = work0.drop_last();
    assert forall|u: int, t2: int| vis0.contains(u) && #[trigger] a.eps_succ(u, t2) implies vis0.contains(
        t2,
    ) || has_state(rest, t2) by {
        if !vis0.contains(t2) {
            lemma_has_state_pop(work0, t2);
        }
    }
    assert forall|i: int| 0 <= i < rest.len() implies entry_at(a, input, k, #[trigger] rest[i]) by {
        assert(rest[i] == work0[i]);
    }
}

/// What the collection of the active states gives: when the states in
/// `work` have been looked at, every state that they lead to has been seen,
/// the active states found are those among them, and the hits are up to
/// date.
pub proof fn lemma_sweep_sound(a: Automaton, input: Seq<char>, k: nat, at: Swept, work: Seq<Entry>, size: usize)
    requires
        a.wf(),
        k <= input.len(),
        at.seen.len() == a.ts.len(),
        size == utf8_len(input.take(k as int)),
        sweep_inv(a, input, k, seen_set(at.seen), at.list, work),
        hits_ok(a, input, k, k, at.hits),
        hit_noted(a, input, k, seen_set(at.seen), at.hits),
    ensures
        ({
            let r = a.sweep(at, work, size);
            &&& r.seen.len() == a.ts.len()
            &&& sweep_inv(a, input, k, seen_set(r.seen), r.list, Seq::empty())
            &&& hits_ok(a, input, k, k, r.hits)
            &&& hit_noted(a, input, k, seen_set(r.seen), r.hits)
            &&& seen_set(at.seen).subset_of(seen_set(r.seen))
            &&& forall|i: int|
                0 <= i < work.len() ==> seen_set(r.seen).contains((#[trigger] work[i]).1.0 as int)
        }),
    decreases unseen(at.seen), work.len(),
{
    let vis0 = seen_set(at.seen);
    if work.len() == 0 {
        assert(work =~= Seq::<Entry>::empty());
    } else {
        let label = work.last().0;
        let state = work.last().1;
        let s = state.0 as int;
        let rest = work.drop_last();
        assert(entry_at(a, input, k, work[work.len() - 1]));
        assert forall|i: int| 0 <= i < rest.len() implies rest[i] == work[i] by {}
        if at.seen[s] {
            let hits = a.hit(at.hits, label, state, size);
            let next = Swept { seen: at.seen, list: at.list, hits };
            lemma_seen_swept(a, input, k, vis0, at.list, work);
            if hits != at.hits {
                let idx = lemma_noted_index(at.hits, label, size);
                lemma_recorded(a, input, k, at.hits, hits, idx, group_of(label));
                assert(a.accepts_at(input, k, group_of(hits[idx].0)));
            }
            lemma_sweep_sound(a, input, k, next, rest, size);
            let r = a.sweep(next, rest, size);
            assert forall|i: int| 0 <= i < work.len() implies seen_set(r.seen).contains(
                (#[trigger] work[i]).1.0 as int,
            ) by {
                if i < rest.len() {
                    assert(rest[i] == work[i]);
                } else {
                    assert(vis0.contains(s));
                }
            }
        } else {
            lemma_unseen_mark(at.seen, s);
            let seen = at.seen.update(s, true);
            let vis1 = vis0.insert(s);
            assert(seen_set(seen) =~= vis1);
            assert(forall|x: int| #[trigger] vis1.contains(x) ==> a.has(x));
            match a.ts[s] {
                Transition::Split(e1, e2) => {
                    let work3 = with_state(with_state(rest, label, e2), label, e1);
                    let next = Swept { seen, list: at.list, hits: at.hits };
                    lemma_eps_swept(a, input, k, vis0, at.list, work);
                    lemma_sweep_sound(a, input, k, next, work3, size);
                    let r = a.sweep(next, work3, size);
                    assert forall|i: int| 0 <= i < work.len() implies seen_set(r.seen).contains(
                        (#[trigger] work[i]).1.0 as int,
                    ) by {
                        if i < rest.len() {
                            assert(work3[i] == work[i]);
                        } else {
                            assert(vis1.contains(s));
                        }
                    }
                },
                Transition::Group(l, e) => {
                    let work3 = rest.push((Some(l), e));
                    let next = Swept { seen, list: at.list, hits: at.hits };
                    lemma_eps_swept(a, input, k, vis0, at.list, work);
                    lemma_sweep_sound(a, input, k, next, work3, size);
                    let r = a.sweep(next, work3, size);
                    assert forall|i: int| 0 <= i < work.len() implies seen_set(r.seen).contains(
                        (#[trigger] work[i]).1.0 as int,
                    ) by {
                        if i < rest.len() {
                            assert(work3[i] == work[i]);
                        } else {
                            assert(vis1.contains(s));
                        }
                    }
                },
                Transition::Eof => {
                    let next = Swept { seen, list: at.list.push((label, state)), hits: at.hits };
                    lemma_rest_swept(a, input, k, vis0, at.list, work, (label, state));
                    lemma_sweep_sound(a, input, k, next, rest, size);
                    let r = a.sweep(next, rest, size);
                    assert forall|i: int| 0 <= i < work.len() implies seen_set(r.seen).contains(
                        (#[trigger] work[i]).1.0 as int,
                    ) by {
                        if i < rest.len() {
                            assert(rest[i] == work[i]);
                        } else {
                            assert(vis1.contains(s));
                        }
                    }
                },
                _ => {
                    let hits = a.hit(at.hits, label, state, size);
                    let next = Swept { seen, list: at.list.push((label, state)), hits };
                    lemma_rest_swept(a, input, k, vis0, at.list, work, (label, state));
                    if state == a.accept {
                        let idx = lemma_noted_index(at.hits, label, size);
                        lemma_recorded(a, input, k, at.hits, hits, idx, group_of(label));
                        assert(a.accepts_at(input, k, group_of(hits[idx].0)));
                    }
                    lemma_sweep_sound(a, input, k, next, rest, size);
                    let r = a.sweep(next, rest, size);
                    assert forall|i: int| 0 <= i < work.len() implies seen_set(r.seen).contains(
                        (#[trigger] work[i]).1.0 as int,
                    ) by {
                        if i < rest.len() {
                            assert(rest[i] == work[i]);
                        } else {
                            assert(vis1.contains(s));
                        }
                    }
                },
            }
        }
    }
}

/// What holds while the active states are stepped with a character: the
/// successors of the states that have been stepped have been seen.
pub open spec fn stepped_inv(
    a: Automaton,
    input: Seq<char>,
    k: nat,
    current: Seq<Entry>,
    i: nat,
    at: Swept,
) -> bool {
    &&& at.seen.len() == a.ts.len()
    &&& sweep_inv(a, input, k + 1, seen_set(at.seen), at.list, Seq::empty())
    &&& hits_ok(a, input, k + 1, k + 1, at.hits)
    &&& hit_noted(a, input, k + 1, seen_set(at.seen), at.hits)
    &&& forall|i0: int, t: int|
        0 <= i0 < i && #[trigger] a.char_move(
            (#[trigger] current[i0]).1.0 as int,
            input[k as int],
            t,
        ) ==> seen_set(at.seen).contains(t)
}

/// The collection after the `i`-th active state has been stepped with the
/// character `c`.
pub open spec fn stepped_one(a: Automaton, current: Seq<Entry>, i: nat, c: char, at: Swept, size: usize) -> Swept {
    let label = current[i as int].0;
    let s = current[i as int].1;
    if s.0 < a.ts.len() {
        match a.ts[s.0 as int] {
            Transition::Label(cond, e) => if cond.spec_accepts(c) {
                a.sweep(at, seq![(label, e)], size)
            } else {
                at
            },
            _ => at,
        }
    } else {
        at
    }
}

/// The successor of an active state that consumes the next character is
/// reached after it, and may be looked at.
pub proof fn lemma_step_work(
    a: Automaton,
    input: Seq<char>,
    k: nat,
    current: Seq<Entry>,
    i: nat,
    at: Swept,
)
    requires
        a.wf(),
        k < input.len(),
        i < current.len(),
        frontier_ok(a, input, k, current),
        stepped_inv(a, input, k, current, i, at),
        a.ts[current[i as int].1.0 as int] matches Transition::Label(cond, _) && cond.spec_accepts(
            input[k as int],
        ),
    ensures
        a.ts[current[i as int].1.0 as int] matches Transition::Label(_, e) && sweep_inv(
            a,
            input,
            k + 1,
            seen_set(at.seen),
            at.list,
            seq![(current[i as int].0, e)],
        ),
{
    let label = current[i as int].0;
    let s = current[i as int].1;
    assert(entry_at(a, input, k, current[i as int]));
    match a.ts[s.0 as int] {
        Transition::Label(cond, e) => {
            assert(super::model::targets_within(a.ts[s.0 as int], a.ts.len() as int));
            lemma_reach_char(a, input, k, s.0 as int, group_of(label), e.0 as int);
            let work = seq![(label, e)];
            assert(work[0] == (label, e));
            assert forall|u: int, t: int|
                seen_set(at.seen).contains(u) && #[trigger] a.eps_succ(u, t) implies seen_set(
                at.seen,
            ).contains(t) || has_state(work, t) by {
                if !seen_set(at.seen).contains(t) {
                    assert(has_state(Seq::<Entry>::empty(), t));
                    let j = choose|j: int|
                        0 <= j < Seq::<Entry>::empty().len() && (#[trigger] Seq::<Entry>::empty()[j]).1.0
                            == t;
                }
            }
        },
        _ => {},
    }
}

/// Stepping one active state with a character keeps what holds of the
/// collection.
pub proof fn lemma_stepped_one(
    a: Automaton,
    input: Seq<char>,
    k: nat,
    current: Seq<Entry>,
    i: nat,
    at: Swept,
    size: usize,
)
    requires
        a.wf(),
        k < input.len(),
        i < current.len(),
        size == utf8_len(input.take(k as int + 1)),
        frontier_ok(a, input, k, current),
        stepped_inv(a, input, k, current, i, at),
    ensures
        stepped_inv(a, input, k, current, i + 1, stepped_one(a, current, i, input[k as int], at, size)),
        a.stepped(current, i, input[k as int], at, size) == a.stepped(
            current,
            i + 1,
            input[k as int],
            stepped_one(a, current, i, input[k as int], at, size),
            size,
        ),
{
    let c = input[k as int];
    let label = current[i as int].0;
    let s = current[i as int].1;
    assert(entry_at(a, input, k, current[i as int]));
    assert(a.rests(current[i as int].1.0 as int));
    let next = stepped_one(a, current, i, c, at, size);
    match a.ts[s.0 as int] {
        Transition::Label(cond, e) => {
            if cond.spec_accepts(c) {
                let work = seq![(label, e)];
                assert(work[0] == (label, e));
                lemma_step_work(a, input, k, current, i, at);
                lemma_sweep_sound(a, input, k + 1, at, work, size);
                assert(seen_set(next.seen).contains(work[0].1.0 as int));
            }
        },
        _ => {},
    }
    assert forall|i0: int, t: int|
        0 <= i0 < i + 1 && #[trigger] a.char_move(
            (#[trigger] current[i0]).1.0 as int,
            input[k as int],
            t,
        ) implies seen_set(next.seen).contains(t) by {
        if i0 < i {
            assert(seen_set(at.seen).contains(t));
        }
    }
}

/// Stepping the active states with a character keeps what holds of the
/// collection.
pub proof fn lemma_stepped_sound(
    a: Automaton,
    input: Seq<char>,
    k: nat,
    current: Seq<Entry>,
    i: nat,
    at: Swept,
    size: usize,
)
    requires
        a.wf(),
        k < input.len(),
        i <= current.len(),
        size == utf8_len(input.take(k as int + 1)),
        frontier_ok(a, input, k, current),
        stepped_inv(a, input, k, current, i, at),
    ensures
        stepped_inv(
            a,
            input,
            k,
            current,
            current.len(),
            a.stepped(current, i, input[k as int], at, size),
        ),
    decreases current.len() - i,
{
    if i < current.len() {
        lemma_stepped_one(a, input, k, current, i, at, size);
        let next = stepped_one(a, current, i, input[k as int], at, size);
        lemma_stepped_sound(a, input, k, current, i + 1, next, size);
    }
}

/// After every number of characters the simulation holds the states
/// active that the automaton can rest in, each once, and its hits cover the
/// prefixes that are accepted up to then.
pub proof fn lemma_run_sound(a: Automaton, input: Seq<char>, k: nat)
    requires
        a.wf(),
        k <= input.len(),
        utf8_len(input) <= usize::MAX,
    ensures
        frontier_ok(a, input, k, a.run(input, k).list),
        hits_ok(a, input, k + 1, k, a.run(input, k).hits),
    decreases k,
{
    let none = Seq::<Entry>::empty();
    if k == 0 {
        let at = Swept { seen: a.unmarked(), list: Seq::empty(), hits: Seq::empty() };
        let work = seq![(None::<Label>, a.start)];
        assert(seen_set(at.seen) =~= Set::<int>::empty());
        assert(input.take(0) =~= Seq::<char>::empty());
        assert(utf8_len(Seq::<char>::empty()) == 0);
        assert(a.reach_in(input, 0, 0, a.start.0 as int, None));
        assert(work[0] == (None::<Label>, a.start));
        lemma_sweep_sound(a, input, 0, at, work, 0);
        let r = a.sweep(at, work, 0);
        assert(seen_set(r.seen).contains(work[0].1.0 as int));
        lemma_sweep_done(a, input, 0, seen_set(r.seen), r.list, r.hits);
    } else {
        let j = (k - 1) as nat;
        lemma_run_sound(a, input, j);
        let before = a.run(input, j);
        let c = input[j as int];
        lemma_utf8_len_prefix(input, k as int, input.len() as int);
        assert(input.take(input.len() as int) == input);
        let size = utf8_len(input.take(k as int)) as usize;
        let at = Swept { seen: a.unmarked(), list: Seq::empty(), hits: before.hits };
        assert(seen_set(at.seen) =~= Set::<int>::empty());
        lemma_hits_widen(a, input, k, j, before.hits);
        assert(stepped_inv(a, input, j, before.list, 0, at));
        lemma_stepped_sound(a, input, j, before.list, 0, at, size);
        let r = a.stepped(before.list, 0, c, at, size);
        let vis = seen_set(r.seen);
        assert forall|j0: nat, u: int, g0: Group, t0: int|
            j0 + 1 == k && a.reach(input, j0, u, g0) && #[trigger] a.moves(
                input,
                j0,
                u,
                g0,
                k,
                t0,
                g0,
            ) implies vis.contains(t0) by {
            assert(a.char_move(u, c, t0));
            assert(a.rests(u));
            assert(has_state(before.list, u));
            let i0 = choose|i0: int| 0 <= i0 < before.list.len() && (#[trigger] before.list[i0]).1.0 == u;
            assert(a.char_move(before.list[i0].1.0 as int, input[j as int], t0));
        }
        lemma_sweep_done(a, input, k, vis, r.list, r.hits);
    }
}

/// The matches of those among the first `k` active states that are the
/// end-of-input state: none, or the one of the group in which that state is
/// active.
proof fn lemma_ends(a: Automaton, list: Seq<Entry>, k: nat, size: usize)
    requires
        k <= list.len(),
        distinct_states(list),
    ensures
        a.ends(list, k, size).len() <= 1,
        a.ends(list, k, size).len() == 0 ==> forall|i: int|
            0 <= i < k ==> (#[trigger] list[i]).1 != a.eof,
        a.ends(list, k, size).len() == 1 ==> exists|i: int|
            0 <= i < k && (#[trigger] list[i]).1 == a.eof && a.ends(list, k, size)[0] == match_of(
                (list[i].0, size),
            ),
    decreases k,
{
    if k > 0 {
        lemma_ends(a, list, (k - 1) as nat, size);
        let before = a.ends(list, (k - 1) as nat, size);
        if list[k - 1].1 == a.eof {
            if before.len() == 1 {
                let i = choose|i: int| 0 <= i < k - 1 && (#[trigger] list[i]).1 == a.eof;
                assert(list[i].1 != list[k - 1].1);
            }
            assert(list[k - 1].1 == a.eof);
        } else if before.len() == 1 {
            let i = choose|i: int|
                0 <= i < k - 1 && (#[trigger] list[i]).1 == a.eof && before[0] == match_of(
                    (list[i].0, size),
                );
            assert(0 <= i < k && list[i].1 == a.eof);
        }
    }
}

/// The match of the end of input is there if and only if the whole input
/// leads to the end-of-input state, and is in a group in which it does.
pub proof fn lemma_end_matches(a: Automaton, input: Seq<char>)
    requires
        a.wf(),
        utf8_len(input) <= usize::MAX,
    ensures
        a.end_report(input, a.end_matches(input)),
{
    let len = input.len();
    lemma_run_sound(a, input, len);
    let end = a.run(input, len);
    let size = utf8_len(input) as usize;
    let q = a.end_matches(input);
    lemma_ends(a, end.list, end.list.len(), size);
    if q.len() == 1 {
        let i = choose|i: int|
            0 <= i < end.list.len() && (#[trigger] end.list[i]).1 == a.eof && q[0] == match_of(
                (end.list[i].0, size),
            );
        assert(entry_at(a, input, len, end.list[i]));
        assert(a.rests(end.list[i].1.0 as int));
        assert(a.ends_at(input, q[0].group()));
        assert(a.ended(input));
    } else {
        if a.ended(input) {
            let g = choose|g: Group| a.ends_at(input, g);
            assert(has_state(end.list, a.eof.0 as int));
            let i = choose|i: int| 0 <= i < end.list.len() && (#[trigger] end.list[i]).1.0 == a.eof.0;
            assert(end.list[i].1 == a.eof);
        }
    }
}

/// The matches of an input are a report of its matches: the accepted
/// prefixes, each group with the longest that was seen in it, and the end
/// of input.
pub proof fn lemma_matches_report(a: Automaton, input: Seq<char>)
    requires
        a.wf(),
        utf8_len(input) <= usize::MAX,
    ensures
        a.match_report(input, a.matches(input)),
{
    let len = input.len();
    lemma_run_sound(a, input, len);
    let end = a.run(input, len);
    let size = utf8_len(input) as usize;
    let p = end.hits.map_values(|h: Hit| match_of(h));
    let q = a.ends(end.list, end.list.len(), size);
    let r = a.matches(input);
    let m = p.len() as int;
    assert(r.take(m) =~= p);
    assert(r.skip(m) =~= q);
    assert(a.accept_report(input, p)) by {
        assert forall|x: int, y: int| 0 <= x < y < p.len() implies (#[trigger] p[x]).group() != (
        #[trigger] p[y]).group() by {
            assert(group_of(end.hits[x].0) != group_of(end.hits[y].0));
        }
        assert forall|x: int| 0 <= x < p.len() implies exists|j: nat|
            j <= input.len() && (#[trigger] p[x]).size() == utf8_len(input.take(j as int))
                && #[trigger] a.accepts_at(input, j, p[x].group()) by {
            let j = choose|j: nat|
                j <= len && end.hits[x].1 == utf8_len(input.take(j as int)) && #[trigger] a.accepts_at(
                    input,
                    j,
                    group_of(end.hits[x].0),
                );
            assert(a.accepts_at(input, j, p[x].group()));
        }
        assert forall|j: nat| j <= input.len() && #[trigger] a.accepted(input, j) implies exists|x: int|
            0 <= x < p.len() && a.accepts_at(input, j, (#[trigger] p[x]).group()) && p[x].size()
                >= utf8_len(input.take(j as int)) by {
            let x = choose|x: int|
                0 <= x < end.hits.len() && a.accepts_at(
                    input,
                    j,
                    group_of((#[trigger] end.hits[x]).0),
                ) && end.hits[x].1 >= utf8_len(input.take(j as int));
            assert(a.accepts_at(input, j, p[x].group()));
        }
    }
    lemma_ends(a, end.list, end.list.len(), size);
    if q.len() == 1 {
        let i = choose|i: int|
            0 <= i < end.list.len() && (#[trigger] end.list[i]).1 == a.eof && q[0] == match_of(
                (end.list[i].0, size),
            );
        assert(entry_at(a, input, len, end.list[i]));
        assert(a.rests(end.list[i].1.0 as int));
        assert(a.ends_at(input, q[0].group()));
        assert(a.ended(input));
    } else {
        if a.ended(input) {
            let g = choose|g: Group| a.ends_at(input, g);
            assert(has_state(end.list, a.eof.0 as int));
            let i = choose|i: int| 0 <= i < end.list.len() && (#[trigger] end.list[i]).1.0 == a.eof.0;
            assert(end.list[i].1 == a.eof);
        }
    }
    assert(a.end_report(input, q));
}

} // verus!
