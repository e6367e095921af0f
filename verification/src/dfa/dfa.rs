//! Deterministic automata: one state at a time, one successor for each
//! character.

use std::collections::{HashMap, HashSet};
use vstd::prelude::*;
use crate::language::Match;
use crate::nfa::State;
use crate::text::{byte_len, utf8_len};

verus! {

/// A deterministic automaton. The successors of a state are keyed by the
/// code of the character.
pub struct DFA {
    pub alphabet: Vec<char>,
    pub transitions: Vec<HashMap<u32, State>>,
    pub start: State,
    pub accept: HashSet<usize>,
}

/// A deterministic automaton as a value.
pub struct Determinate {
    pub delta: Seq<Map<u32, State>>,
    pub start: State,
    pub accept: Set<usize>,
}

impl Determinate {
    /// The state after the first `k` characters of `input`, or `None` if
    /// the start or one of the successors on the way is no state of the
    /// automaton, or if a character has no successor.
    pub open spec fn run(self, input: Seq<char>, k: nat) -> Option<State>
        decreases k,
    {
        if k == 0 {
            if self.start.0 < self.delta.len() {
                Some(self.start)
            } else {
                None
            }
        } else {
            match self.run(input, (k - 1) as nat) {
                Some(s) => {
                    let c = input[k - 1] as u32;
                    if self.delta[s.0 as int].contains_key(c) && self.delta[s.0 as int][c].0
                        < self.delta.len() {
                        Some(self.delta[s.0 as int][c])
                    } else {
                        None
                    }
                },
                None => None,
            }
        }
    }

    /// Whether the whole of `input` leads to an accepting state.
    pub open spec fn accepts(self, input: Seq<char>) -> bool {
        self.run(input, input.len()) matches Some(s) && self.accept.contains(s.0)
    }
}

impl View for DFA {
    type V = Determinate;

    open spec fn view(&self) -> Determinate {
        Determinate {
            delta: self.transitions@.map_values(|m: HashMap<u32, State>| m@),
            start: self.start,
            accept: self.accept@,
        }
    }
}

impl DFA {
    /// The one match of the whole input if it leads to an accepting state,
    /// and no match if it does not: if at a state a character has no
    /// successor, the input is not matched.
    #[must_use]
    pub fn is_match(&self, input: &str) -> (r: Vec<Match>)
        ensures
            r@ == if self@.accepts(input@) {
                seq![Match::NoGroup(utf8_len(input@) as usize)]
            } else {
                Seq::<Match>::empty()
            },
    {
        let ghost a = self@;
        let mut current = self.start;
        if current.0 >= self.transitions.len() {
            proof {
                lemma_stuck(a, input@, 0, input@.len());
            }
            return Vec::new();
        }
        for c in it: input.chars()
            invariant
                it.seq() == input@,
                a == self@,
                a.run(input@, it.index() as nat) == Some(current),
                current.0 < a.delta.len(),
        {
            assert(a.delta[current.0 as int] == self.transitions@[current.0 as int]@);
            let next = match self.transitions[current.0].get(&(c as u32)) {
                Some(next) => *next,
                None => {
                    proof {
                        lemma_stuck(a, input@, (it.index() + 1) as nat, input@.len());
                    }
                    return Vec::new();
                },
            };
            if next.0 >= self.transitions.len() {
                proof {
                    lemma_stuck(a, input@, (it.index() + 1) as nat, input@.len());
                }
                return Vec::new();
            }
            current = next;
        }

        let mut r = Vec::new();
        if self.accept.contains(&current.0) {
            r.push(Match::NoGroup(byte_len(input)));
        }
        r
    }
}

/// Once the run is stuck, it stays stuck.
pub proof fn lemma_stuck(a: Determinate, input: Seq<char>, k: nat, n: nat)
    requires
        k <= n,
        a.run(input, k) is None,
    ensures
        a.run(input, n) is None,
    decreases n,
{
    if k < n {
        lemma_stuck(a, input, k, (n - 1) as nat);
    }
}

} // verus!
