//! Several labelled automata fused into one, whose matches tell which of
//! them matched.

use vstd::prelude::*;
use vstd::std_specs::convert::IntoSpec;
use super::model::{edges_within, targets_within, Automaton};
use super::nfa::{Transition, NFA};
use super::state::State;
use crate::language::{Label, Language, LanguageError, Match};

verus! {

/// Build an NFA from multiple NFAs.
/// Allows for detection of multiple matches from a single test.
///
/// The constructed NFA returns the label for the NFA whenever a match is detected.
#[derive(Debug)]
pub struct NFASet(pub NFA);

/// Where the state `e` of the appended automaton `next` lands behind
/// `base`: on the accepting state of the base if it is the accepting state
/// of `next`, on the end-of-input state of the base if it is the
/// end-of-input state of `next`, else as many states further on as the base
/// has.
pub open spec fn shifted(e: State, next: Automaton, base: Automaton) -> State {
    if e == next.accept {
        base.accept
    } else if e == next.eof {
        base.eof
    } else {
        State((e.0 + base.ts.len()) as usize)
    }
}

/// The transition `t` of an appended automaton, in the fused table: every
/// edge goes where its state lands.
pub open spec fn shift_transition(t: Transition, next: Automaton, base: Automaton) -> Transition {
    match t {
        Transition::Label(l, e) => Transition::Label(l, shifted(e, next, base)),
        Transition::Split(a, b) => Transition::Split(
            match a {
                Some(x) => Some(shifted(x, next, base)),
                None => None,
            },
            match b {
                Some(y) => Some(shifted(y, next, base)),
                None => None,
            },
        ),
        Transition::Group(l, e) => Transition::Group(l, shifted(e, next, base)),
        Transition::Eof => Transition::Eof,
        Transition::Accept => Transition::Accept,
    }
}

/// The automaton `a` behind a group marker for `label`, which is the new
/// start.
pub open spec fn grouped(a: Automaton, label: Label) -> Automaton {
    Automaton {
        ts: a.ts.push(Transition::Group(label, a.start)),
        start: State(a.ts.len() as usize),
        accept: a.accept,
        eof: a.eof,
    }
}

/// The automaton `next` appended to `base`, with a new start that forks
/// into both, the base first. The two share the accepting state and the
/// end-of-input state of the base.
pub open spec fn fused(base: Automaton, next: Automaton) -> Automaton {
    let offset = base.ts.len() as int;
    let ts = base.ts + next.ts.map_values(|t: Transition| shift_transition(t, next, base));
    Automaton {
        ts: ts.push(
            Transition::Split(Some(base.start), Some(State((next.start.0 + offset) as usize))),
        ),
        start: State(ts.len() as usize),
        accept: base.accept,
        eof: base.eof,
    }
}

/// The first of `parts` behind its group marker, with the `k` parts that
/// follow it appended to it in turn, each behind its own.
pub open spec fn fuse_upto(parts: Seq<(Label, Automaton)>, k: nat) -> Automaton
    decreases k,
{
    if k == 0 {
        grouped(parts[0].1, parts[0].0)
    } else {
        fused(fuse_upto(parts, (k - 1) as nat), grouped(parts[k as int].1, parts[k as int].0))
    }
}

/// The fusion of `parts`: the first one is the base, to which the others
/// are appended in their order.
pub open spec fn fuse_spec(parts: Seq<(Label, Automaton)>) -> Automaton
    recommends
        parts.len() > 0,
{
    fuse_upto(parts, (parts.len() - 1) as nat)
}

/// The automata of a vector of pairs, each with its label.
pub open spec fn parts_of<L>(labels: Seq<Label>, nfas: Seq<(L, NFA)>) -> Seq<(Label, Automaton)> {
    Seq::new(nfas.len(), |i: int| (labels[i], nfas[i].1@))
}

/// The labels are those that the pairs are converted into, as far as the
/// conversion is specified.
pub open spec fn labels_of<L: Into<Label>>(labels: Seq<Label>, nfas: Seq<(L, NFA)>) -> bool {
    &&& labels.len() == nfas.len()
    &&& L::obeys_into_spec() ==> forall|i: int|
        0 <= i < nfas.len() ==> #[trigger] labels[i] == nfas[i].0.into_spec()
}

/// What is fused of the first parts depends on these alone.
proof fn lemma_fuse_upto_agree(p: Seq<(Label, Automaton)>, q: Seq<(Label, Automaton)>, k: nat)
    requires
        k < p.len(),
        k < q.len(),
        forall|i: int| 0 <= i <= k ==> p[i] == q[i],
    ensures
        fuse_upto(p, k) == fuse_upto(q, k),
    decreases k,
{
    if k > 0 {
        lemma_fuse_upto_agree(p, q, (k - 1) as nat);
    }
}

/// An automaton behind a group marker is well formed if it was before.
pub proof fn lemma_grouped_wf(a: Automaton, label: Label)
    requires
        a.wf(),
        a.ts.len() < usize::MAX,
    ensures
        grouped(a, label).wf(),
{
    let b = grouped(a, label);
    assert forall|i: int| 0 <= i < b.ts.len() implies targets_within(#[trigger] b.ts[i], b.ts.len() as int) by {
        if i < a.ts.len() {
            assert(targets_within(a.ts[i], a.ts.len() as int));
        }
    }
}

/// The fusion of two well-formed automata is well formed.
pub proof fn lemma_fused_wf(base: Automaton, next: Automaton)
    requires
        base.wf(),
        next.wf(),
        base.ts.len() + next.ts.len() < usize::MAX,
    ensures
        fused(base, next).wf(),
{
    let f = fused(base, next);
    let offset = base.ts.len() as int;
    assert forall|i: int| 0 <= i < f.ts.len() implies targets_within(#[trigger] f.ts[i], f.ts.len() as int) by {
        if i < offset {
            assert(targets_within(base.ts[i], base.ts.len() as int));
        } else if i < offset + next.ts.len() {
            assert(targets_within(next.ts[i - offset], next.ts.len() as int));
            assert(f.ts[i] == shift_transition(next.ts[i - offset], next, base));
        }
    }
}

/// An automaton behind a group marker is labelled.
pub proof fn lemma_grouped_labelled(a: Automaton, label: Label)
    requires
        a.ts.len() < usize::MAX,
    ensures
        grouped(a, label).labelled(),
{
    let b = grouped(a, label);
    assert(b.spine(b.start.0 as int, 0));
}

/// The fusion of two labelled automata, the second of which starts with its
/// group marker, is labelled.
pub proof fn lemma_fused_labelled(base: Automaton, next: Automaton)
    requires
        base.wf(),
        next.wf(),
        base.labelled(),
        next.ts[next.start.0 as int] is Group,
        base.ts.len() + next.ts.len() < usize::MAX,
    ensures
        fused(base, next).labelled(),
{
    let f = fused(base, next);
    let fuel = choose|fuel: nat| base.spine(base.start.0 as int, fuel);
    lemma_fused_spine(base, next, base.start.0 as int, fuel);
    let offset = base.ts.len() as int;
    let t = next.start.0 + offset;
    assert(f.ts[t] == shift_transition(next.ts[next.start.0 as int], next, base));
    assert(f.spine(t, fuel));
    assert(f.spine(f.start.0 as int, fuel + 1));
}

/// What lies before the group markers of the base lies before them in the
/// fusion.
proof fn lemma_fused_spine(base: Automaton, next: Automaton, s: int, fuel: nat)
    requires
        base.wf(),
        base.spine(s, fuel),
        base.ts.len() + next.ts.len() < usize::MAX,
    ensures
        fused(base, next).spine(s, fuel),
    decreases fuel,
{
    let f = fused(base, next);
    assert(f.ts[s] == base.ts[s]);
    assert(targets_within(base.ts[s], base.ts.len() as int));
    match base.ts[s] {
        Transition::Split(a, b) => {
            if let Some(x) = a {
                lemma_fused_spine(base, next, x.0 as int, (fuel - 1) as nat);
            }
            if let Some(y) = b {
                lemma_fused_spine(base, next, y.0 as int, (fuel - 1) as nat);
            }
        },
        _ => {},
    }
}

/// Where the states of an appended automaton land.
struct Landing {
    own_accept: State,
    own_eof: State,
    accept: State,
    eof: State,
    offset: usize,
}

impl Landing {
    /// The landing is that of `next` behind `base`.
    spec fn of(self, next: Automaton, base: Automaton) -> bool {
        &&& self.own_accept == next.accept
        &&& self.own_eof == next.eof
        &&& self.accept == base.accept
        &&& self.eof == base.eof
        &&& self.offset == base.ts.len()
    }

    /// Where the state `e` of the appended automaton lands.
    fn state(&self, e: State, Ghost(next): Ghost<Automaton>, Ghost(base): Ghost<Automaton>) -> (r: State)
        requires
            self.of(next, base),
            e.0 + self.offset <= usize::MAX,
        ensures
            r == shifted(e, next, base),
    {
        if e.0 == self.own_accept.0 {
            self.accept
        } else if e.0 == self.own_eof.0 {
            self.eof
        } else {
            State(e.0 + self.offset)
        }
    }

    /// The transition `t` of the appended automaton, in the fused table.
    fn transition(&self, t: Transition, Ghost(next): Ghost<Automaton>, Ghost(base): Ghost<Automaton>) -> (r:
        Transition)
        requires
            self.of(next, base),
            targets_within(t, next.ts.len() as int),
            next.ts.len() + self.offset <= usize::MAX,
        ensures
            r == shift_transition(t, next, base),
    {
        match t {
            Transition::Label(l, e) => Transition::Label(l, self.state(e, Ghost(next), Ghost(base))),
            Transition::Split(e1, e2) => {
                let a = match e1 {
                    Some(x) => Some(self.state(x, Ghost(next), Ghost(base))),
                    None => None,
                };
                let b = match e2 {
                    Some(y) => Some(self.state(y, Ghost(next), Ghost(base))),
                    None => None,
                };
                Transition::Split(a, b)
            },
            Transition::Group(l, e) => Transition::Group(l, self.state(e, Ghost(next), Ghost(base))),
            Transition::Accept => Transition::Accept,
            Transition::Eof => Transition::Eof,
        }
    }
}

impl NFASet {
    /// All indices in the automaton name states of it.
    pub open spec fn wf(&self) -> bool {
        self.0.wf()
    }

    /// Every match of the set is in a group.
    pub open spec fn labelled(&self) -> bool {
        self.0@.labelled()
    }

    /// Fuses the automata, the first one being the base to which the others
    /// are appended in their order. All share the accepting state and the
    /// end-of-input state of the first. Where the automata are tidy and
    /// have no group markers of their own, as compiled ones are, the set
    /// comes to each of its states in one group only, so that its matches
    /// hold every label with its own longest prefix.
    ///
    /// # Errors
    ///
    /// Fails if no automaton is given.
    pub fn build<L>(nfas: Vec<(L, NFA)>) -> (r: Result<Self, String>) where L: Into<Label>
        requires
            forall|i: int| 0 <= i < nfas@.len() ==> (#[trigger] nfas@[i]).1.wf(),
        ensures
            nfas@.len() == 0 ==> (r matches Err(msg) && msg@ == "At least one nfa must be provided"@),
            nfas@.len() > 0 ==> (r matches Ok(set) && set.wf() && set.labelled() && exists|
                labels: Seq<Label>,
            |
                labels_of(labels, nfas@) && set.0@ == fuse_spec(#[trigger] parts_of(labels, nfas@))),
            (forall|i: int| 0 <= i < nfas@.len() ==> (#[trigger] nfas@[i]).1@.tidy() && nfas@[i].1@.plain())
                ==> (r matches Ok(set) ==> set.0@.tidy() && forall|input: Seq<char>| #[trigger]
                set.0@.sorted(input)),
    {
        let mut nfas = nfas;
        let ghost all = nfas@;
        let ghost mut labels: Seq<Label>;
        if nfas.len() == 0 {
            return Err("At least one nfa must be provided".to_string());
        }
        let (marker, mut nfa) = nfas.remove(0);
        assert((marker, nfa) == all[0]);
        let ghost first = nfa@;
        let label: Label = marker.into();
        nfa.new_group_state(label);
        let size = nfa.transitions.len();
        proof {
            lemma_grouped_wf(first, label);
            lemma_grouped_labelled(first, label);
            assert(nfa@ == grouped(first, label));
            labels = Seq::new(all.len(), |i: int| label);
            assert(parts_of(labels, all)[0] == (label, first));
        }
        let ghost rest = nfas@;
        assert(rest == all.remove(0));

        for part in it: nfas
            invariant
                it.seq() == rest,
                rest == all.remove(0),
                all.len() > 0,
                labels.len() == all.len(),
                forall|i: int| 0 <= i < all.len() ==> (#[trigger] all[i]).1.wf(),
                nfa.wf(),
                nfa@.labelled(),
                nfa@ == fuse_upto(parts_of(labels, all), it.index() as nat),
                L::obeys_into_spec() ==> forall|i: int|
                    0 <= i <= it.index() ==> #[trigger] labels[i] == all[i].0.into_spec(),
        {
            let ghost k = it.index() + 1;
            let ghost base = nfa@;
            assert(part == all[k]);
            let (marker, mut next_nfa) = part;
            let ghost a0 = next_nfa@;
            // Offset each state since we append this nfa to the other.
            let add_state = nfa.transitions.len();
            let label: Label = marker.into();
            next_nfa.new_group_state(label);
            let ghost next = next_nfa@;
            let landing = Landing {
                own_accept: next_nfa.accept,
                own_eof: next_nfa.eof,
                accept: nfa.accept,
                eof: nfa.eof,
                offset: add_state,
            };
            let next_start = next_nfa.start;
            let bound = next_nfa.transitions.len();
            proof {
                lemma_grouped_wf(a0, label);
                assert(next == grouped(a0, label));
                let before = parts_of(labels, all);
                labels = labels.update(k, label);
                let after = parts_of(labels, all);
                lemma_fuse_upto_agree(before, after, (k - 1) as nat);
                assert(after[k] == (label, a0));
            }

            nfa.transitions.append(&mut next_nfa.transitions);
            let total = nfa.transitions.len();
            let mut i: usize = add_state;
            while i < total
                invariant
                    add_state <= i <= total,
                    total == add_state + bound,
                    total == nfa.transitions@.len(),
                    bound == next.ts.len(),
                    add_state == base.ts.len(),
                    edges_within(next.ts, bound as int),
                    nfa.start == base.start,
                    nfa.accept == base.accept,
                    nfa.eof == base.eof,
                    landing.of(next, base),
                    forall|j: int| 0 <= j < add_state ==> nfa.transitions@[j] == base.ts[j],
                    forall|j: int|
                        add_state <= j < i ==> nfa.transitions@[j] == shift_transition(
                            next.ts[j - add_state],
                            next,
                            base,
                        ),
                    forall|j: int| i <= j < total ==> nfa.transitions@[j] == next.ts[j - add_state],
                decreases total - i,
            {
                let t = nfa.transitions[i];
                assert(targets_within(next.ts[i - add_state], bound as int));
                nfa.transitions[i] = landing.transition(t, Ghost(next), Ghost(base));
                i = i + 1;
            }
            let start = nfa.new_split_state(
                Some(nfa.start),
                Some(State(next_start.0 + add_state)),
            );
            nfa.start = start;
            let size = nfa.transitions.len();
            proof {
                assert(nfa.transitions@ =~= fused(base, next).ts);
                assert(nfa@ == fused(base, next));
                lemma_fused_wf(base, next);
                lemma_fused_labelled(base, next);
            }
        }
        let size = nfa.transitions.len();
        proof {
            let parts = parts_of(labels, all);
            assert(parts.len() - 1 == rest.len());
            assert(labels_of(labels, all));
            if forall|i: int| 0 <= i < all.len() ==> (#[trigger] all[i]).1@.tidy() && all[i].1@.plain() {
                assert forall|i: int| 0 <= i < parts.len() implies (#[trigger] parts[i]).1.tidy()
                    && parts[i].1.plain() by {
                    assert(all[i].1@.tidy());
                }
                assert forall|input: Seq<char>| #[trigger] nfa@.sorted(input) by {
                    super::fusion::lemma_fusion_sorted(parts, input);
                }
                super::fusion::lemma_fusion_sorted(parts, Seq::empty());
            }
        }
        Ok(NFASet(nfa))
    }
}

impl Language for NFASet {
    open spec fn well_formed(&self) -> bool {
        self.wf()
    }

    fn is_match(&self, input: &str) -> (r: Vec<Match>)
        ensures
            r@ == self.0@.matches(input@),
            self.0@.match_report(input@, r@),
            forall|k: nat|
                k <= input@.len() ==> super::sound::frontier_ok(
                    self.0@,
                    input@,
                    k,
                    (#[trigger] self.0@.run(input@, k)).list,
                ),
            self.0@.tidy() && self.0@.sorted(input@) ==> r@ == self.0@.accepted_matches(input@)
                + self.0@.end_matches(input@) && super::groups::each_longest(
                self.0@,
                input@,
                self.0@.accepted_matches(input@),
            ),
    {
        self.0.is_match(input)
    }

    /// The set of the one automaton of `source`, without a label.
    fn try_from_language(source: &str) -> (r: Result<Self, LanguageError>)
        ensures
            match crate::parse::postfix::parse_spec(crate::parse::tokenize(source@)) {
                Err(e) => r matches Err(LanguageError::ParseError(x)) && x@ == e,
                Ok(rpn) => r matches Ok(set) && Ok::<Automaton, crate::language::CompileError>(set.0@)
                    == super::thompson::compile_spec(rpn),
            },
    {
        match NFA::try_from_language(source) {
            Ok(nfa) => Ok(NFASet(nfa)),
            Err(e) => Err(e),
        }
    }
}

} // verus!
