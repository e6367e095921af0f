//! Simulation of an automaton on an input: the set of active states is
//! stepped character by character, each state entering it at most once.

use vstd::prelude::*;
use super::model::{lemma_unseen_mark, noted, unseen, Automaton, Entry, Frontier, Hit, Swept};
use super::nfa::{Transition, NFA};
use super::sound::{frontier_ok, lemma_matches_report, lemma_run_sound};
use super::state::State;
use crate::language::{match_of, same_group, Label, Language, LanguageError, Match};
use crate::parse::Postfix;
use crate::text::{byte_len, char_width, len_utf8, lemma_utf8_len_prefix, lemma_utf8_len_push, utf8_len};

verus! {

/// The scratch state of one simulation.
#[derive(Debug)]
pub struct Step {
    /// The current char in the input string.
    current_char: char,
    /// Number of bytes of the input consumed thus far.
    consumed: usize,
    /// Contains a number for each state.
    /// If `step_list[state] == step` then we have reached the state already.
    step_list: Vec<usize>,
    /// The current step.
    step: usize,
    /// The states that a closure still has to look at; empty between closures.
    work: Vec<Entry>,
}

/// Every entry is at one of `n` states.
pub open spec fn within(list: Seq<Entry>, n: nat) -> bool {
    forall|i: int| 0 <= i < list.len() ==> (#[trigger] list[i]).1.0 < n
}

impl Step {
    /// No mark is ahead of the step.
    pub closed spec fn wf(&self) -> bool {
        &&& self.step >= 1
        &&& forall|i: int|
            0 <= i < self.step_list@.len() ==> (#[trigger] self.step_list@[i]) <= self.step
    }

    /// Which states have been reached in the current step.
    pub closed spec fn marks(&self) -> Seq<bool> {
        Seq::new(self.step_list@.len(), |i: int| self.step_list@[i] == self.step)
    }

    #[must_use]
    fn new(num_states: usize) -> (r: Self)
        ensures
            r.wf(),
            r.marks() == Seq::new(num_states as nat, |i: int| false),
            r.consumed == 0,
            r.work@.len() == 0,
    {
        let mut step_list: Vec<usize> = Vec::new();
        let mut i: usize = 0;
        while i < num_states
            invariant
                i <= num_states,
                step_list@.len() == i,
                forall|j: int| 0 <= j < i ==> (#[trigger] step_list@[j]) == 0,
            decreases num_states - i,
        {
            step_list.push(0);
            i = i + 1;
        }
        let r = Step { current_char: '\0', consumed: 0, step_list, step: 1, work: Vec::new() };
        assert(r.marks() =~= Seq::new(num_states as nat, |i: int| false));
        r
    }

    #[must_use]
    fn is_visited(&self, state: State) -> (r: bool)
        requires
            state.0 < self.marks().len(),
        ensures
            r == self.marks()[state.0 as int],
    {
        self.step_list[state.0] == self.step
    }

    fn set_visited(&mut self, state: State)
        requires
            old(self).wf(),
            state.0 < old(self).marks().len(),
        ensures
            final(self).wf(),
            final(self).marks() == old(self).marks().update(state.0 as int, true),
            final(self).consumed == old(self).consumed,
            final(self).current_char == old(self).current_char,
            final(self).work == old(self).work,
    {
        let mark = self.step;
        self.step_list[state.0] = mark;
        assert(self.marks() =~= old(self).marks().update(state.0 as int, true));
    }

    fn next_step(&mut self, current_char: char)
        requires
            old(self).wf(),
            old(self).consumed + char_width(current_char) <= usize::MAX,
        ensures
            final(self).wf(),
            final(self).marks() == Seq::new(old(self).marks().len(), |i: int| false),
            final(self).consumed == old(self).consumed + char_width(current_char),
            final(self).current_char == current_char,
            final(self).work == old(self).work,
    {
        if self.step == usize::MAX {
            // Every mark may be in use: start afresh.
            let n = self.step_list.len();
            let mut i: usize = 0;
            while i < n
                invariant
                    i <= n,
                    n == self.step_list@.len(),
                    self.consumed == old(self).consumed,
                    self.work == old(self).work,
                    forall|j: int| 0 <= j < i ==> (#[trigger] self.step_list@[j]) == 0,
                decreases n - i,
            {
                self.step_list[i] = 0;
                i = i + 1;
            }
            self.step = 1;
        } else {
            self.step += 1;
        }
        self.current_char = current_char;
        // The char might be more than one byte.
        self.consumed += len_utf8(current_char);
        assert(self.marks() =~= Seq::new(old(self).marks().len(), |i: int| false));
    }
}

/// Records that a prefix of `size` bytes is accepted in `group`, in place of
/// what was recorded for that group before.
fn record(matches: &mut Vec<Hit>, group: Option<Label>, size: usize)
    ensures
        final(matches)@ == noted(old(matches)@, group, size),
{
    let n = matches.len();
    let mut i: usize = 0;
    proof {
        assert(matches@.skip(0) =~= matches@);
        assert(matches@.take(0) + matches@ =~= matches@);
    }
    while i < n
        invariant
            i <= n,
            n == matches@.len(),
            matches@ == old(matches)@,
            noted(matches@, group, size) == matches@.take(i as int) + noted(
                matches@.skip(i as int),
                group,
                size,
            ),
        decreases n - i,
    {
        let ghost before = matches@;
        let ghost tail = before.skip(i as int);
        assert(tail[0] == before[i as int]);
        if same_group(&matches[i].0, &group) {
            let label = matches[i].0;
            matches[i] = (label, size);
            assert(matches@ =~= before.take(i as int) + (seq![(label, size)] + tail.drop_first()));
            return ;
        }
        proof {
            assert(tail.drop_first() =~= before.skip(i + 1));
            assert(before.take(i as int) + (seq![tail[0]] + noted(tail.drop_first(), group, size))
                =~= before.take(i + 1) + noted(before.skip(i + 1), group, size));
        }
        i = i + 1;
    }
    proof {
        let before = matches@;
        assert(before.skip(n as int) =~= Seq::<Hit>::empty());
        assert(before.take(n as int) + seq![(group, size)] =~= before.push((group, size)));
    }
    matches.push((group, size));
}

impl NFA {
    /// Adds the resting states that `state` leads to without consuming input
    /// to `list`, each in the group in which it is reached first, unless the
    /// current step has seen it already. The accepting state records a hit
    /// for every group in which it is come to.
    fn add_state(
        &self,
        step: &mut Step,
        list: &mut Vec<Entry>,
        matches: &mut Vec<Hit>,
        group: Option<Label>,
        state: State,
    )
        requires
            self.wf(),
            old(step).wf(),
            old(step).marks().len() == self@.ts.len(),
            old(step).work@.len() == 0,
            state.0 < self@.ts.len(),
            within(old(list)@, self@.ts.len()),
        ensures
            final(step).wf(),
            final(step).marks().len() == old(step).marks().len(),
            final(step).work@.len() == 0,
            final(step).consumed == old(step).consumed,
            final(step).current_char == old(step).current_char,
            within(final(list)@, self@.ts.len()),
            (Swept { seen: final(step).marks(), list: final(list)@, hits: final(matches)@ })
                == self@.sweep(
                Swept { seen: old(step).marks(), list: old(list)@, hits: old(matches)@ },
                seq![(group, state)],
                old(step).consumed,
            ),
    {
        let ghost a = self@;
        let ghost target = a.sweep(
            Swept { seen: step.marks(), list: list@, hits: matches@ },
            seq![(group, state)],
            step.consumed,
        );
        step.work.push((group, state));
        assert(step.work@ =~= seq![(group, state)]);
        while step.work.len() > 0
            invariant
                a == self@,
                self.wf(),
                step.wf(),
                step.marks().len() == a.ts.len(),
                step.consumed == old(step).consumed,
                step.current_char == old(step).current_char,
                within(list@, a.ts.len()),
                within(step.work@, a.ts.len()),
                a.sweep(
                    Swept { seen: step.marks(), list: list@, hits: matches@ },
                    step.work@,
                    step.consumed,
                ) == target,
            decreases unseen(step.marks()), step.work@.len(),
        {
            let ghost work0 = step.work@;
            let (g, s) = step.work.pop().unwrap();
            assert(work0.last() == (g, s));
            assert(work0[work0.len() - 1].1.0 < a.ts.len());
            assert(within(step.work@, a.ts.len())) by {
                assert forall|i: int| 0 <= i < step.work@.len() implies (#[trigger] step.work@[i]).1.0
                    < a.ts.len() by {
                    assert(step.work@[i] == work0[i]);
                }
            }
            let accepts = match self.transitions[s.0] {
                Transition::Label(_, _) | Transition::Accept => s.0 == self.accept.0,
                _ => false,
            };
            if accepts {
                // Every group keeps its own longest prefix.
                record(matches, g, step.consumed);
            }
            if !step.is_visited(s) {
                proof {
                    lemma_unseen_mark(step.marks(), s.0 as int);
                }
                step.set_visited(s);
                assert(super::model::targets_within(a.ts[s.0 as int], a.ts.len() as int));
                match self.transitions[s.0] {
                    Transition::Split(e1, e2) => {
                        if let Some(e2) = e2 {
                            step.work.push((g, e2));
                        }
                        if let Some(e1) = e1 {
                            step.work.push((g, e1));
                        }
                    },
                    Transition::Group(l, e) => {
                        step.work.push((Some(l), e));
                    },
                    Transition::Label(_, _) | Transition::Accept => {
                        list.push((g, s));
                    },
                    Transition::Eof => {
                        list.push((g, s));
                    },
                }
            }
        }
        assert(step.work@ =~= Seq::<Entry>::empty());
    }

    /// Step each state in `current_list` with the current character,
    /// following any moves that consume nothing.
    fn step(
        &self,
        step: &mut Step,
        current_list: &Vec<Entry>,
        next_list: &mut Vec<Entry>,
        matches: &mut Vec<Hit>,
    )
        requires
            self.wf(),
            old(step).wf(),
            old(step).marks().len() == self@.ts.len(),
            old(step).work@.len() == 0,
            within(current_list@, self@.ts.len()),
            within(old(next_list)@, self@.ts.len()),
        ensures
            final(step).wf(),
            final(step).marks().len() == old(step).marks().len(),
            final(step).work@.len() == 0,
            final(step).consumed == old(step).consumed,
            within(final(next_list)@, self@.ts.len()),
            (Swept { seen: final(step).marks(), list: final(next_list)@, hits: final(matches)@ })
                == self@.stepped(
                current_list@,
                0,
                old(step).current_char,
                Swept { seen: old(step).marks(), list: old(next_list)@, hits: old(matches)@ },
                old(step).consumed,
            ),
    {
        let ghost a = self@;
        let c = step.current_char;
        let ghost target = a.stepped(
            current_list@,
            0,
            c,
            Swept { seen: step.marks(), list: next_list@, hits: matches@ },
            step.consumed,
        );
        let n = current_list.len();
        let mut i: usize = 0;
        while i < n
            invariant
                a == self@,
                self.wf(),
                step.wf(),
                step.marks().len() == a.ts.len(),
                step.work@.len() == 0,
                step.consumed == old(step).consumed,
                step.current_char == c,
                n == current_list@.len(),
                i <= n,
                within(current_list@, a.ts.len()),
                within(next_list@, a.ts.len()),
                a.stepped(
                    current_list@,
                    i as nat,
                    c,
                    Swept { seen: step.marks(), list: next_list@, hits: matches@ },
                    step.consumed,
                ) == target,
            decreases n - i,
        {
            let (group, state) = current_list[i];
            assert(current_list@[i as int].1.0 < a.ts.len());
            match self.transitions[state.0] {
                Transition::Label(cond, e) => {
                    if cond.accepts(c) {
                        assert(super::model::targets_within(a.ts[state.0 as int], a.ts.len() as int));
                        self.add_state(step, next_list, matches, group, e);
                    }
                },
                _ => {
                    // A state that accepts is in the hits already, and the
                    // end-of-input state is left by not stepping it.
                },
            }
            i = i + 1;
        }
    }
}

impl Language for NFA {
    open spec fn well_formed(&self) -> bool {
        self.wf()
    }

    /// The matches of `input`, each a prefix of it that starts at its first
    /// character: for each group the longest accepted prefix that was seen
    /// in that group, in the order in which the groups were first accepted,
    /// and then the whole input if it leads to the end-of-input state.
    /// Lengths are in bytes.
    fn is_match(&self, input: &str) -> (r: Vec<Match>)
        ensures
            r@ == self@.matches(input@),
            self@.match_report(input@, r@),
            forall|k: nat|
                k <= input@.len() ==> frontier_ok(self@, input@, k, (#[trigger] self@.run(input@, k)).list),
            self@.tidy() && self@.sorted(input@) ==> r@ == self@.accepted_matches(input@)
                + self@.end_matches(input@) && super::groups::each_longest(
                self@,
                input@,
                self@.accepted_matches(input@),
            ),
    {
        let ghost a = self@;
        let ghost chars = input@;
        let mut current_list: Vec<Entry> = Vec::with_capacity(self.transitions.len());
        let mut next_list: Vec<Entry> = Vec::with_capacity(self.transitions.len());

        let mut matches: Vec<Hit> = Vec::new();

        let mut step = Step::new(self.transitions.len());
        let total = byte_len(input);
        proof {
            assert(step.marks() =~= a.unmarked());
            assert(chars.take(0) =~= Seq::<char>::empty());
            assert(utf8_len(Seq::<char>::empty()) == 0);
            lemma_matches_report(a, chars);
            if a.tidy() && a.sorted(chars) {
                super::groups::lemma_each_longest(a, chars);
            }
            assert forall|i: int| 0 <= i < a.matches(chars).len() implies crate::text::is_prefix_len(
                chars,
                (#[trigger] a.matches(chars)[i]).size() as int,
            ) by {
                super::model::lemma_report_prefix(a, chars, a.matches(chars), i);
            }
            assert forall|k: nat| k <= chars.len() implies frontier_ok(
                a,
                chars,
                k,
                (#[trigger] a.run(chars, k)).list,
            ) by {
                lemma_run_sound(a, chars, k);
            }
        }

        // Follow any eps-closures at the start
        self.add_state(&mut step, &mut current_list, &mut matches, None, self.start);

        for c in it: input.chars()
            invariant
                a == self@,
                chars == input@,
                it.seq() == chars,
                self.wf(),
                step.wf(),
                step.marks().len() == a.ts.len(),
                step.work@.len() == 0,
                step.consumed == utf8_len(chars.take(it.index())),
                total == utf8_len(chars),
                next_list@.len() == 0,
                within(current_list@, a.ts.len()),
                (Frontier { list: current_list@, hits: matches@ }) == a.run(chars, it.index() as nat),
        {
            let ghost k = it.index() as nat;
            proof {
                assert(chars.take(k as int + 1) == chars.take(k as int).push(c));
                lemma_utf8_len_push(chars.take(k as int), c);
                lemma_utf8_len_prefix(chars, k as int + 1, chars.len() as int);
                assert(chars.take(chars.len() as int) == chars);
            }
            step.next_step(c);
            assert(step.marks() =~= a.unmarked());
            assert(next_list@ =~= Seq::<Entry>::empty());
            assert(chars[k as int] == c);

            self.step(&mut step, &current_list, &mut next_list, &mut matches);

            std::mem::swap(&mut current_list, &mut next_list);
            next_list.truncate(0);
        }

        let mut result: Vec<Match> = Vec::new();
        let m = matches.len();
        let mut i: usize = 0;
        while i < m
            invariant
                i <= m,
                m == matches@.len(),
                result@ == matches@.take(i as int).map_values(|h: Hit| match_of(h)),
            decreases m - i,
        {
            let hit = matches[i];
            result.push(Match::from(hit));
            assert(result@ =~= matches@.take(i + 1).map_values(|h: Hit| match_of(h)));
            i = i + 1;
        }
        let ghost hits = result@;
        assert(matches@.take(m as int) == matches@);

        // Add any Eof states still in the list
        let n = current_list.len();
        let mut i: usize = 0;
        while i < n
            invariant
                i <= n,
                n == current_list@.len(),
                a == self@,
                result@ == hits + a.ends(current_list@, i as nat, total),
            decreases n - i,
        {
            let (group, state) = current_list[i];
            if state == self.eof {
                result.push(Match::from((group, total)));
                assert(result@ =~= hits + a.ends(current_list@, (i + 1) as nat, total));
            }
            i = i + 1;
        }
        result
    }

    /// Parses `source` and compiles its postfix program.
    fn try_from_language(source: &str) -> (r: Result<Self, LanguageError>)
        ensures
            match crate::parse::postfix::parse_spec(crate::parse::tokenize(source@)) {
                Err(e) => r matches Err(LanguageError::ParseError(x)) && x@ == e,
                Ok(rpn) => r matches Ok(nfa) && Ok::<Automaton, crate::language::CompileError>(nfa@)
                    == super::thompson::compile_spec(rpn),
            },
            r matches Ok(nfa) ==> nfa@.spells(),
    {
        proof {
            let parsed = crate::parse::postfix::parse_spec(crate::parse::tokenize(source@));
            if parsed is Ok {
                crate::parse::postfix::lemma_parse_expression(crate::parse::tokenize(source@));
                super::thompson::lemma_expression_compiles(parsed->Ok_0);
                crate::parse::postfix::lemma_parse_no_wildcard(source@);
                super::explore::lemma_compiled_spells(parsed->Ok_0);
            }
        }
        let postfix = match Postfix::parse(source) {
            Ok(postfix) => postfix,
            Err(e) => {
                return Err(LanguageError::ParseError(e));
            },
        };
        match NFA::compile(postfix) {
            Ok(nfa) => Ok(nfa),
            Err(e) => Err(LanguageError::CompileError(e)),
        }
    }
}

} // verus!
