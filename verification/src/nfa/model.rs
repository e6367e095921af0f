//! The mathematical model of an automaton: its transition table as a
//! sequence, and what it means for the table to be well formed.

use vstd::prelude::*;
use super::nfa::Transition;
use super::state::State;
use crate::language::{group_of, match_of, Group, Label, Match};
use crate::text::utf8_len;

verus! {

/// An automaton as a value: the transition of each state, and the three
/// distinguished states.
pub struct Automaton {
    pub ts: Seq<Transition>,
    pub start: State,
    pub accept: State,
    pub eof: State,
}

/// Every successor named by `t` is below `bound`.
pub open spec fn targets_within(t: Transition, bound: int) -> bool {
    match t {
        Transition::Label(_, e) => e.0 < bound,
        Transition::Split(a, b) => {
            &&& a matches Some(x) ==> x.0 < bound
            &&& b matches Some(y) ==> y.0 < bound
        },
        Transition::Group(_, e) => e.0 < bound,
        Transition::Eof => true,
        Transition::Accept => true,
    }
}

/// Every successor named anywhere in `ts` is below `bound`.
pub open spec fn edges_within(ts: Seq<Transition>, bound: int) -> bool {
    forall|i: int| 0 <= i < ts.len() ==> targets_within(#[trigger] ts[i], bound)
}

/// A state whose dangling edge may be patched: a label state, or a split
/// whose second slot is vacant.
pub open spec fn patchable(t: Transition) -> bool {
    match t {
        Transition::Label(_, _) => true,
        Transition::Split(_, b) => b is None,
        _ => false,
    }
}

/// The transition `t` with its dangling edge pointed at `to`.
pub open spec fn redirect(t: Transition, to: State) -> Transition {
    match t {
        Transition::Label(l, _) => Transition::Label(l, to),
        Transition::Split(a, _) => Transition::Split(a, Some(to)),
        other => other,
    }
}

/// The table `ts` after the dangling edge of every state in `out` has been
/// pointed at `to`.
pub open spec fn patched(ts: Seq<Transition>, out: Seq<State>, to: State) -> Seq<Transition> {
    Seq::new(
        ts.len(),
        |i: int|
            if out.contains(State(i as usize)) {
                redirect(ts[i], to)
            } else {
                ts[i]
            },
    )
}

impl Automaton {
    /// Whether `s` names a state of this automaton.
    pub open spec fn has(self, s: int) -> bool {
        0 <= s < self.ts.len()
    }

    /// All indices in the automaton name states of it.
    pub open spec fn wf(self) -> bool {
        &&& edges_within(self.ts, self.ts.len() as int)
        &&& self.has(self.start.0 as int)
        &&& self.has(self.accept.0 as int)
        &&& self.has(self.eof.0 as int)
    }
}

impl Automaton {
    /// A state at which the simulation rests between two characters: one
    /// that consumes, accepts, or waits for the end of input.
    pub open spec fn rests(self, s: int) -> bool {
        self.has(s) && (self.ts[s] is Label || self.ts[s] is Accept || self.ts[s] is Eof)
    }

    /// `t` is a successor of `s` that is reached without consuming input.
    pub open spec fn eps_succ(self, s: int, t: int) -> bool {
        self.has(s) && match self.ts[s] {
            Transition::Split(a, b) => (a matches Some(x) && x.0 == t) || (b matches Some(y) && y.0
                == t),
            Transition::Group(_, e) => e.0 == t,
            _ => false,
        }
    }

    /// From `s` in group `g`, the automaton moves to `t` in group `h` without
    /// consuming input. A split keeps the group; a group marker replaces it.
    pub open spec fn eps_move(self, s: int, g: Group, t: int, h: Group) -> bool {
        self.has(s) && match self.ts[s] {
            Transition::Split(a, b) => h == g && ((a matches Some(x) && x.0 == t) || (
            b matches Some(y) && y.0 == t)),
            Transition::Group(l, e) => e.0 == t && h == Some(l@),
            _ => false,
        }
    }

    /// From `s` the automaton moves to `t` by consuming `c`.
    pub open spec fn char_move(self, s: int, c: char, t: int) -> bool {
        self.has(s) && (self.ts[s] matches Transition::Label(lit, e) && lit.spec_accepts(c) && e.0
            == t)
    }

    /// One move of the simulation: from state `u` in group `gu` after `j`
    /// characters of `input` to state `s` in group `g` after `k` characters,
    /// either without consuming or by consuming the next character.
    pub open spec fn moves(
        self,
        input: Seq<char>,
        j: nat,
        u: int,
        gu: Group,
        k: nat,
        s: int,
        g: Group,
    ) -> bool {
        ||| j == k && self.eps_move(u, gu, s, g)
        ||| j + 1 == k && k <= input.len() && gu == g && self.char_move(u, input[j as int], s)
    }

    /// With exactly `n` moves from the start, the automaton can consume the
    /// first `k` characters of `input` and be in state `s` with `g` as the
    /// active group.
    pub open spec fn reach_in(self, input: Seq<char>, k: nat, n: nat, s: int, g: Group) -> bool
        decreases n,
    {
        if n == 0 {
            k == 0 && s == self.start.0 && g == None::<Seq<char>>
        } else {
            exists|j: nat, u: int, gu: Group| #[trigger]
                self.moves(input, j, u, gu, k, s, g) && self.reach_in(
                    input,
                    j,
                    (n - 1) as nat,
                    u,
                    gu,
                )
        }
    }

    /// After consuming the first `k` characters of `input`, the automaton can
    /// be in state `s` with `g` as the active group.
    pub open spec fn reach(self, input: Seq<char>, k: nat, s: int, g: Group) -> bool {
        exists|n: nat| self.reach_in(input, k, n, s, g)
    }

    /// The state that `accept` names is one at which a match is recorded.
    pub open spec fn accepting(self) -> bool {
        self.has(self.accept.0 as int) && (self.ts[self.accept.0 as int] is Accept
            || self.ts[self.accept.0 as int] is Label)
    }

    /// The first `k` characters of `input` are accepted along a path whose
    /// active group at the end is `g`.
    pub open spec fn accepts_at(self, input: Seq<char>, k: nat, g: Group) -> bool {
        self.accepting() && self.reach(input, k, self.accept.0 as int, g)
    }

    /// The first `k` characters of `input` are accepted.
    pub open spec fn accepted(self, input: Seq<char>, k: nat) -> bool {
        exists|g: Group| self.accepts_at(input, k, g)
    }

    /// The whole of `input` leads to the end-of-input state along a path
    /// whose active group at the end is `g`.
    pub open spec fn ends_at(self, input: Seq<char>, g: Group) -> bool {
        self.rests(self.eof.0 as int) && self.reach(input, input.len(), self.eof.0 as int, g)
    }

    /// The whole of `input` leads to the end-of-input state.
    pub open spec fn ended(self, input: Seq<char>) -> bool {
        exists|g: Group| self.ends_at(input, g)
    }
}

impl Automaton {
    /// `p` reports the accepted prefixes of `input`: no group twice; each
    /// report is the length in bytes of a prefix that is accepted in the
    /// report's group; and each accepted prefix is covered by a report at
    /// least as long, in a group in which that prefix is accepted.
    pub open spec fn accept_report(self, input: Seq<char>, p: Seq<Match>) -> bool {
        &&& forall|i: int, j: int|
            0 <= i < j < p.len() ==> (#[trigger] p[i]).group() != (#[trigger] p[j]).group()
        &&& forall|i: int|
            0 <= i < p.len() ==> exists|j: nat|
                j <= input.len() && (#[trigger] p[i]).size() == utf8_len(input.take(j as int))
                    && #[trigger] self.accepts_at(input, j, p[i].group())
        &&& forall|j: nat|
            j <= input.len() && #[trigger] self.accepted(input, j) ==> exists|i: int|
                0 <= i < p.len() && self.accepts_at(input, j, (#[trigger] p[i]).group())
                    && p[i].size() >= utf8_len(input.take(j as int))
    }

    /// `q` reports whether the whole of `input` leads to the end-of-input
    /// state: one match of the whole length if it does, none if not.
    pub open spec fn end_report(self, input: Seq<char>, q: Seq<Match>) -> bool {
        if self.ended(input) {
            q.len() == 1 && self.ends_at(input, q[0].group()) && q[0].size() == utf8_len(input)
        } else {
            q.len() == 0
        }
    }

    /// `r` is a report of the matches of `input`: the accepted prefixes
    /// first, then the end-of-input match if there is one.
    pub open spec fn match_report(self, input: Seq<char>, r: Seq<Match>) -> bool {
        exists|m: int|
            0 <= m <= r.len() && #[trigger] self.accept_report(input, r.take(m))
                && self.end_report(input, r.skip(m))
    }
}

impl Automaton {
    /// From `s`, every way that consumes nothing passes a group marker after
    /// at most `fuel` splits.
    pub open spec fn spine(self, s: int, fuel: nat) -> bool
        decreases fuel,
    {
        self.has(s) && match self.ts[s] {
            Transition::Group(_, _) => true,
            Transition::Split(a, b) => {
                &&& fuel > 0
                &&& a matches Some(x) ==> self.spine(x.0 as int, (fuel - 1) as nat)
                &&& b matches Some(y) ==> self.spine(y.0 as int, (fuel - 1) as nat)
            },
            _ => false,
        }
    }

    /// Every way from the start passes a group marker before it comes to a
    /// state that consumes, accepts or waits for the end of input.
    pub open spec fn labelled(self) -> bool {
        exists|fuel: nat| self.spine(self.start.0 as int, fuel)
    }
}

/// In a labelled automaton a state that is reached in no group lies before
/// the group markers.
pub proof fn lemma_labelled_reach(a: Automaton, input: Seq<char>, k: nat, n: nat, s: int)
    requires
        a.labelled(),
        a.reach_in(input, k, n, s, None),
    ensures
        exists|fuel: nat| a.spine(s, fuel),
    decreases n,
{
    if n > 0 {
        let (j, u, gu) = choose|j: nat, u: int, gu: Group| #[trigger]
            a.moves(input, j, u, gu, k, s, None) && a.reach_in(input, j, (n - 1) as nat, u, gu);
        assert(gu == None::<Seq<char>>);
        lemma_labelled_reach(a, input, j, (n - 1) as nat, u);
        let fuel = choose|fuel: nat| a.spine(u, fuel);
        assert(a.spine(s, (fuel - 1) as nat));
    }
}

/// Every match that a labelled automaton reports has a group.
pub proof fn lemma_labelled_report(a: Automaton, input: Seq<char>, r: Seq<Match>, i: int)
    requires
        a.labelled(),
        a.match_report(input, r),
        0 <= i < r.len(),
    ensures
        r[i] is Group,
{
    let m = choose|m: int|
        0 <= m <= r.len() && #[trigger] a.accept_report(input, r.take(m)) && a.end_report(
            input,
            r.skip(m),
        );
    if i < m {
        let p = r.take(m);
        assert(p[i] == r[i]);
        let j = choose|j: nat|
            j <= input.len() && p[i].size() == utf8_len(input.take(j as int)) && #[trigger] a.accepts_at(
                input,
                j,
                p[i].group(),
            );
        if r[i].group() is None {
            let n = choose|n: nat| a.reach_in(input, j, n, a.accept.0 as int, None);
            lemma_labelled_reach(a, input, j, n, a.accept.0 as int);
        }
    } else {
        let q = r.skip(m);
        assert(q[0] == r[i]);
        if r[i].group() is None {
            let n = choose|n: nat| a.reach_in(input, input.len(), n, a.eof.0 as int, None);
            lemma_labelled_reach(a, input, input.len(), n, a.eof.0 as int);
        }
    }
}

/// Every match that is reported is the length in bytes of a prefix of the
/// input.
pub proof fn lemma_report_prefix(a: Automaton, input: Seq<char>, r: Seq<Match>, i: int)
    requires
        a.match_report(input, r),
        0 <= i < r.len(),
    ensures
        crate::text::is_prefix_len(input, r[i].size() as int),
{
    let m = choose|m: int|
        0 <= m <= r.len() && #[trigger] a.accept_report(input, r.take(m)) && a.end_report(
            input,
            r.skip(m),
        );
    if i < m {
        let p = r.take(m);
        assert(p[i] == r[i]);
        let j = choose|j: nat|
            j <= input.len() && p[i].size() == utf8_len(input.take(j as int)) && #[trigger] a.accepts_at(
                input,
                j,
                p[i].group(),
            );
        assert(p[i].size() == utf8_len(input.take(j as int)));
    } else {
        let q = r.skip(m);
        assert(q[0] == r[i]);
        assert(input.take(input.len() as int) == input);
        assert(r[i].size() == utf8_len(input.take(input.len() as int)));
    }
}

/// An active state together with the label of its group.
pub type Entry = (Option<Label>, State);

/// The length in bytes of the longest accepted prefix seen in a group.
pub type Hit = (Option<Label>, usize);

/// How many states have not been seen.
pub open spec fn unseen(seen: Seq<bool>) -> nat
    decreases seen.len(),
{
    if seen.len() == 0 {
        0
    } else {
        unseen(seen.drop_last()) + if seen.last() {
            0nat
        } else {
            1nat
        }
    }
}

/// One state less is unseen after it has been seen.
pub proof fn lemma_unseen_mark(seen: Seq<bool>, i: int)
    requires
        0 <= i < seen.len(),
        !seen[i],
    ensures
        unseen(seen.update(i, true)) + 1 == unseen(seen),
    decreases seen.len(),
{
    let after = seen.update(i, true);
    if i == seen.len() - 1 {
        assert(after.drop_last() == seen.drop_last());
    } else {
        lemma_unseen_mark(seen.drop_last(), i);
        assert(after.drop_last() == seen.drop_last().update(i, true));
    }
}

/// The hits after a prefix of `size` bytes has been accepted in the group of
/// `label`: the first hit of that group holds `size` in place of what it
/// held; if there is none, a hit of `label` and `size` is added at the end.
pub open spec fn noted(hits: Seq<Hit>, label: Option<Label>, size: usize) -> Seq<Hit>
    decreases hits.len(),
{
    if hits.len() == 0 {
        seq![(label, size)]
    } else if group_of(hits[0].0) == group_of(label) {
        seq![(hits[0].0, size)] + hits.drop_first()
    } else {
        seq![hits[0]] + noted(hits.drop_first(), label, size)
    }
}

/// The work with one more state to look at, if there is one.
pub open spec fn with_state(work: Seq<Entry>, label: Option<Label>, e: Option<State>) -> Seq<Entry> {
    match e {
        Some(x) => work.push((label, x)),
        None => work,
    }
}

/// Where the collection of the active states stands: which states have been
/// seen in this step, the active states found so far, and the hits.
pub struct Swept {
    pub seen: Seq<bool>,
    pub list: Seq<Entry>,
    pub hits: Seq<Hit>,
}

/// The active states after some characters, and the hits up to then.
pub struct Frontier {
    pub list: Seq<Entry>,
    pub hits: Seq<Hit>,
}

impl Automaton {
    /// The hits after the state `s` has been come to in the group of `label`
    /// with `size` bytes consumed: if `s` is the accepting state, the hit is
    /// recorded for that group.
    pub open spec fn hit(self, hits: Seq<Hit>, label: Option<Label>, s: State, size: usize) -> Seq<Hit> {
        if s == self.accept && s.0 < self.ts.len() && (self.ts[s.0 as int] is Label
            || self.ts[s.0 as int] is Accept) {
            noted(hits, label, size)
        } else {
            hits
        }
    }

    /// Looks at the states in `work`, the last one first. Whenever the
    /// accepting state is come to, a hit of `size` bytes is recorded for the
    /// group in which it is come to, also where another group has come to it
    /// before in this step: so every group keeps its own longest prefix. A
    /// state that has been seen in this step is then passed over; a split
    /// gives its successors to look at, the first one first; a group marker
    /// gives its successor in its own group; a state that consumes, accepts
    /// or waits for the end of input joins the active states in the group in
    /// which it is looked at first.
    pub open spec fn sweep(self, at: Swept, work: Seq<Entry>, size: usize) -> Swept
        decreases unseen(at.seen), work.len(),
    {
        if work.len() == 0 {
            at
        } else {
            let label = work.last().0;
            let s = work.last().1;
            let rest = work.drop_last();
            if !(s.0 < at.seen.len()) || !(s.0 < self.ts.len()) {
                self.sweep(at, rest, size)
            } else if at.seen[s.0 as int] {
                self.sweep(
                    Swept { seen: at.seen, list: at.list, hits: self.hit(at.hits, label, s, size) },
                    rest,
                    size,
                )
            } else {
                proof {
                    lemma_unseen_mark(at.seen, s.0 as int);
                }
                let seen = at.seen.update(s.0 as int, true);
                match self.ts[s.0 as int] {
                    Transition::Split(e1, e2) => self.sweep(
                        Swept { seen, list: at.list, hits: at.hits },
                        with_state(with_state(rest, label, e2), label, e1),
                        size,
                    ),
                    Transition::Group(l, e) => self.sweep(
                        Swept { seen, list: at.list, hits: at.hits },
                        rest.push((Some(l), e)),
                        size,
                    ),
                    Transition::Eof => self.sweep(
                        Swept { seen, list: at.list.push((label, s)), hits: at.hits },
                        rest,
                        size,
                    ),
                    _ => self.sweep(
                        Swept {
                            seen,
                            list: at.list.push((label, s)),
                            hits: self.hit(at.hits, label, s, size),
                        },
                        rest,
                        size,
                    ),
                }
            }
        }
    }

    /// Steps the active states from the `i`-th on with the character `c`:
    /// from each state that consumes `c`, in its order, the states are
    /// collected that its successor leads to.
    pub open spec fn stepped(self, current: Seq<Entry>, i: nat, c: char, at: Swept, size: usize) -> Swept
        decreases current.len() - i,
    {
        if i >= current.len() {
            at
        } else {
            let label = current[i as int].0;
            let s = current[i as int].1;
            let next = if s.0 < self.ts.len() {
                match self.ts[s.0 as int] {
                    Transition::Label(cond, e) => if cond.spec_accepts(c) {
                        self.sweep(at, seq![(label, e)], size)
                    } else {
                        at
                    },
                    _ => at,
                }
            } else {
                at
            };
            self.stepped(current, i + 1, c, next, size)
        }
    }

    /// No state has been seen.
    pub open spec fn unmarked(self) -> Seq<bool> {
        Seq::new(self.ts.len(), |i: int| false)
    }

    /// The active states after the first `k` characters of `input`, in the
    /// order in which they were found, and the hits up to then.
    pub open spec fn run(self, input: Seq<char>, k: nat) -> Frontier
        decreases k,
    {
        if k == 0 {
            let s = self.sweep(
                Swept { seen: self.unmarked(), list: Seq::empty(), hits: Seq::empty() },
                seq![(None, self.start)],
                0,
            );
            Frontier { list: s.list, hits: s.hits }
        } else {
            let before = self.run(input, (k - 1) as nat);
            let s = self.stepped(
                before.list,
                0,
                input[k - 1],
                Swept { seen: self.unmarked(), list: Seq::empty(), hits: before.hits },
                utf8_len(input.take(k as int)) as usize,
            );
            Frontier { list: s.list, hits: s.hits }
        }
    }

    /// The matches of those among the first `k` active states that are the
    /// end-of-input state, each of `size` bytes.
    pub open spec fn ends(self, list: Seq<Entry>, k: nat, size: usize) -> Seq<Match>
        decreases k,
    {
        if k == 0 {
            Seq::empty()
        } else if list[k - 1].1 == self.eof {
            self.ends(list, (k - 1) as nat, size).push(match_of((list[k - 1].0, size)))
        } else {
            self.ends(list, (k - 1) as nat, size)
        }
    }

    /// The matches of the accepted prefixes of `input`: for each group in
    /// which a prefix was accepted the longest that was recorded for it, in
    /// the order in which the groups were first accepted.
    pub open spec fn accepted_matches(self, input: Seq<char>) -> Seq<Match> {
        self.run(input, input.len()).hits.map_values(|h: Hit| match_of(h))
    }

    /// The match of the whole of `input`, if the end-of-input state is
    /// active at its end, in the group that came to it first.
    pub open spec fn end_matches(self, input: Seq<char>) -> Seq<Match> {
        let end = self.run(input, input.len());
        self.ends(end.list, end.list.len(), utf8_len(input) as usize)
    }

    /// The matches of `input`: those of the accepted prefixes, one for each
    /// group, in the order in which the groups were first accepted, then the
    /// match of the whole input if the end-of-input state is active at its
    /// end, in the group that came to it first.
    pub open spec fn matches(self, input: Seq<char>) -> Seq<Match> {
        let end = self.run(input, input.len());
        end.hits.map_values(|h: Hit| match_of(h)) + self.ends(
            end.list,
            end.list.len(),
            utf8_len(input) as usize,
        )
    }
}

} // verus!
