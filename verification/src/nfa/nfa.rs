//! The automaton arena: the states with their transitions, and the patching
//! of dangling edges.

use vstd::prelude::*;
use super::model::{patchable, patched, redirect, targets_within, Automaton};
use super::state::State;
use crate::language::Label;
use crate::parse::Lit;

verus! {

/// What a state does.
#[derive(Debug, Clone, Copy)]
pub enum Transition {
    /// Consumes one character that the literal accepts.
    Label(Lit, State),
    /// Forks without consuming into the successors that are present.
    Split(Option<State>, Option<State>),
    /// Moves on without consuming and makes the label the active group.
    Group(Label, State),
    /// Matches only when the whole input has been consumed.
    Eof,
    /// The accepting state.
    Accept,
}

/// A nondeterministic automaton: one transition for each state, and the
/// states at which it starts, accepts, and waits for the end of input.
#[derive(Debug)]
pub struct NFA {
    /// Each state has its own row of transitions.
    /// Thus `transitions.len() == num_states`
    pub transitions: Vec<Transition>,
    pub start: State,
    /// Only a single accepting state.
    pub accept: State,
    /// State that doesn't accept any more tokens.
    pub eof: State,
}

impl View for NFA {
    type V = Automaton;

    open spec fn view(&self) -> Automaton {
        Automaton {
            ts: self.transitions@,
            start: self.start,
            accept: self.accept,
            eof: self.eof,
        }
    }
}

impl NFA {
    /// All indices in the automaton name states of it.
    pub open spec fn wf(&self) -> bool {
        self@.wf()
    }

    /// An automaton with the end-of-input state alone, which is its start.
    #[must_use]
    pub fn new() -> (nfa: Self)
        ensures
            nfa@ == (Automaton {
                ts: seq![Transition::Eof],
                start: State(0),
                accept: State(0),
                eof: State(0),
            }),
            nfa.wf(),
    {
        let mut transitions: Vec<Transition> = Vec::new();
        transitions.push(Transition::Eof);
        assert(transitions@ =~= seq![Transition::Eof]);
        NFA { transitions, eof: State(0), accept: State(0), start: State(0) }
    }

    /// Whether all indices in the automaton name states of it.
    pub fn is_well_formed(&self) -> (r: bool)
        ensures
            r == self.wf(),
    {
        let n = self.transitions.len();
        if self.start.0 >= n || self.accept.0 >= n || self.eof.0 >= n {
            return false;
        }
        let mut i: usize = 0;
        while i < n
            invariant
                i <= n,
                n == self.transitions@.len(),
                forall|j: int| 0 <= j < i ==> targets_within(#[trigger] self.transitions@[j], n as int),
            decreases n - i,
        {
            let within = match self.transitions[i] {
                Transition::Label(_, e) => e.0 < n,
                Transition::Split(a, b) => (match a {
                    Some(x) => x.0 < n,
                    None => true,
                }) && (match b {
                    Some(y) => y.0 < n,
                    None => true,
                }),
                Transition::Group(_, e) => e.0 < n,
                Transition::Eof => true,
                Transition::Accept => true,
            };
            if !within {
                assert(!targets_within(self.transitions@[i as int], n as int));
                return false;
            }
            i = i + 1;
        }
        true
    }

    /// Appends a state that consumes `label` and, until patched, loops to
    /// itself.
    #[must_use]
    pub(crate) fn new_label_state(&mut self, label: Lit) -> (state: State)
        ensures
            state.0 == old(self).transitions@.len(),
            final(self).transitions@ == old(self).transitions@.push(Transition::Label(label, state)),
            final(self).start == old(self).start,
            final(self).accept == old(self).accept,
            final(self).eof == old(self).eof,
    {
        let state = State(self.transitions.len());
        self.transitions.push(Transition::Label(label, state));
        state
    }

    /// Appends a state that forks into `e1` and `e2`.
    #[must_use]
    pub(crate) fn new_split_state(&mut self, e1: Option<State>, e2: Option<State>) -> (state: State)
        ensures
            state.0 == old(self).transitions@.len(),
            final(self).transitions@ == old(self).transitions@.push(Transition::Split(e1, e2)),
            final(self).start == old(self).start,
            final(self).accept == old(self).accept,
            final(self).eof == old(self).eof,
    {
        self.transitions.push(Transition::Split(e1, e2));
        State(self.transitions.len() - 1)
    }

    /// Appends an accepting state.
    #[must_use]
    pub(crate) fn new_accept_state(&mut self) -> (state: State)
        ensures
            state.0 == old(self).transitions@.len(),
            final(self).transitions@ == old(self).transitions@.push(Transition::Accept),
            final(self).start == old(self).start,
            final(self).accept == old(self).accept,
            final(self).eof == old(self).eof,
    {
        self.transitions.push(Transition::Accept);
        State(self.transitions.len() - 1)
    }

    /// Insert a new group state at the start of the NFA.
    pub(crate) fn new_group_state(&mut self, marker: Label)
        ensures
            final(self).transitions@ == old(self).transitions@.push(
                Transition::Group(marker, old(self).start),
            ),
            final(self).start.0 == old(self).transitions@.len(),
            final(self).accept == old(self).accept,
            final(self).eof == old(self).eof,
    {
        self.transitions.push(Transition::Group(marker, self.start));
        self.start = State(self.transitions.len() - 1);
    }

    /// Points the dangling edge of every state in `from.out` at `to`.
    pub(super) fn patch(&mut self, from: &Frag, to: State)
        requires
            forall|i: int|
                0 <= i < from.out@.len() ==> (#[trigger] from.out@[i]).0 < old(self).transitions@.len()
                    && patchable(old(self).transitions@[from.out@[i].0 as int]),
        ensures
            final(self).transitions@ == patched(old(self).transitions@, from.out@, to),
            final(self).start == old(self).start,
            final(self).accept == old(self).accept,
            final(self).eof == old(self).eof,
    {
        let ghost before = self.transitions@;
        let total = self.transitions.len();
        let n = from.out.len();
        let mut k: usize = 0;
        while k < n
            invariant
                n == from.out@.len(),
                k <= n,
                self.start == old(self).start,
                self.accept == old(self).accept,
                self.eof == old(self).eof,
                before == old(self).transitions@,
                before.len() == total,
                forall|i: int|
                    0 <= i < from.out@.len() ==> (#[trigger] from.out@[i]).0 < before.len()
                        && patchable(before[from.out@[i].0 as int]),
                self.transitions@ == patched(before, from.out@.take(k as int), to),
            decreases n - k,
        {
            let outp = from.out[k];
            let ghost mid = self.transitions@;
            assert(from.out@[k as int] == outp);
            match &mut self.transitions[outp.0] {
                Transition::Label(_, e) => {
                    *e = to;
                },
                Transition::Split(_, e2) => {
                    *e2 = Some(to);
                },
                _ => {
                    assert(false);
                },
            }
            proof {
                let pz = from.out@.take(k as int);
                let pa = from.out@.take(k as int + 1);
                assert(pa == pz.push(outp));
                assert(self.transitions@ == mid.update(outp.0 as int, redirect(mid[outp.0 as int], to)));
                assert forall|i: int| 0 <= i < before.len() implies self.transitions@[i]
                    == patched(before, pa, to)[i] by {
                    let si = State(i as usize);
                    if i == outp.0 {
                        assert(pa[k as int] == si);
                        assert(pa.contains(si));
                    } else {
                        if pz.contains(si) {
                            let j = choose|j: int| 0 <= j < pz.len() && pz[j] == si;
                            assert(pa[j] == si);
                        }
                        if pa.contains(si) {
                            let j = choose|j: int| 0 <= j < pa.len() && pa[j] == si;
                            assert(j < k);
                            assert(pz[j] == si);
                        }
                    }
                }
                assert(self.transitions@ =~= patched(before, pa, to));
            }
            k = k + 1;
        }
        assert(from.out@.take(n as int) == from.out@);
    }
}

/// A partial automaton under construction: its entry state and the states
/// whose dangling edge is still to be connected.
#[derive(Debug)]
pub struct Frag {
    pub start: State,
    pub out: Vec<State>,
}

/// A fragment as a value.
pub struct FragModel {
    pub start: State,
    pub out: Seq<State>,
}

impl View for Frag {
    type V = FragModel;

    open spec fn view(&self) -> FragModel {
        FragModel { start: self.start, out: self.out@ }
    }
}

} // verus!
