//! What an automaton can spell: the words along its paths, and whether
//! there is but one way through it.

use vstd::prelude::*;
use super::model::Automaton;
use super::nfa::{Transition, NFA};
use super::state::State;
use crate::parse::Lit;
use crate::text::{byte_len, lemma_char_width_bounds, lemma_utf8_len_push, utf8_len};

verus! {

/// The character that a literal contributes to a spelled word: itself, or
/// the lower bound of a range.
pub open spec fn spelled(lit: Lit) -> char {
    match lit {
        Lit::Char(c) => c,
        Lit::Range(lo, _) => lo,
        Lit::Any => ' ',
    }
}

/// How much room a word of the given length leaves below `max_len` bytes.
pub open spec fn room(max_len: nat, w: Seq<char>) -> nat {
    if utf8_len(w) > max_len {
        0
    } else {
        (max_len + 1 - utf8_len(w)) as nat
    }
}

impl Automaton {
    /// No state consumes just any character.
    pub open spec fn spells(self) -> bool {
        forall|i: int|
            0 <= i < self.ts.len() ==> !((#[trigger] self.ts[i]) matches Transition::Label(
                Lit::Any,
                _,
            ))
    }

    /// The words of at most `max_len` bytes that are spelled on the ways from
    /// state `s`, where `w` has been spelled already and `hops` moves have
    /// been made since its last character, to an accepting or end-of-input
    /// state. A way makes at most `limit` moves in a row that consume
    /// nothing.
    pub open spec fn words_from(self, limit: nat, max_len: nat, s: int, w: Seq<char>, hops: nat) -> Set<
        Seq<char>,
    >
        decreases room(max_len, w), limit - hops,
    {
        if utf8_len(w) > max_len || !self.has(s) {
            Set::empty()
        } else {
            match self.ts[s] {
                Transition::Label(lit, e) => {
                    let next = w.push(spelled(lit));
                    if room(max_len, next) < room(max_len, w) {
                        self.words_from(limit, max_len, e.0 as int, next, 0)
                    } else {
                        Set::empty()
                    }
                },
                Transition::Split(a, b) => if hops >= limit {
                    Set::empty()
                } else {
                    (match a {
                        Some(x) => self.words_from(limit, max_len, x.0 as int, w, hops + 1),
                        None => Set::empty(),
                    }).union(
                        match b {
                            Some(y) => self.words_from(limit, max_len, y.0 as int, w, hops + 1),
                            None => Set::empty(),
                        },
                    )
                },
                Transition::Group(_, e) => if hops >= limit {
                    Set::empty()
                } else {
                    self.words_from(limit, max_len, e.0 as int, w, hops + 1)
                },
                Transition::Accept => set![w],
                Transition::Eof => set![w],
            }
        }
    }

    /// The words of at most `max_len` bytes that the automaton spells on its
    /// ways from the start to an accepting or end-of-input state, where no
    /// way makes more moves in a row that consume nothing than there are
    /// states.
    pub open spec fn words(self, max_len: nat) -> Set<Seq<char>> {
        self.words_from(self.ts.len(), max_len, self.start.0 as int, Seq::empty(), 0)
    }

    /// From `s` there is one way only, of at most `fuel` characters, each of
    /// them a single one, that ends where nothing follows.
    pub open spec fn fixed_from(self, s: int, fuel: nat) -> bool
        decreases fuel,
    {
        self.has(s) && match self.ts[s] {
            Transition::Label(Lit::Char(_), e) => fuel > 0 && self.fixed_from(
                e.0 as int,
                (fuel - 1) as nat,
            ),
            Transition::Label(_, _) => false,
            Transition::Split(a, b) => a is None && b is None,
            _ => true,
        }
    }
}

/// The strings hold `words` and nothing else, and none of them twice.
pub open spec fn holds_words(list: Seq<String>, words: Set<Seq<char>>) -> bool {
    &&& forall|i: int| 0 <= i < list.len() ==> words.contains(#[trigger] list[i]@)
    &&& forall|w: Seq<char>| #[trigger]
        words.contains(w) ==> exists|i: int| 0 <= i < list.len() && (#[trigger] list[i])@ == w
    &&& forall|i: int, j: int| 0 <= i < j < list.len() ==> (#[trigger] list[i])@ != (#[trigger] list[j])@
}

/// Adds `word` to `done` unless it is there.
fn insert(done: &mut Vec<String>, word: String, Ghost(words): Ghost<Set<Seq<char>>>)
    requires
        holds_words(old(done)@, words),
    ensures
        holds_words(final(done)@, words.insert(word@)),
{
    let n = done.len();
    let mut i: usize = 0;
    while i < n
        invariant
            i <= n,
            n == done@.len(),
            done@ == old(done)@,
            holds_words(done@, words),
            forall|j: int| 0 <= j < i ==> (#[trigger] done@[j])@ != word@,
        decreases n - i,
    {
        if done[i] == word {
            assert(words.contains(done@[i as int]@));
            assert(words.insert(word@) =~= words);
            return ;
        }
        i = i + 1;
    }
    let ghost before = done@;
    let ghost w0 = word@;
    done.push(word);
    proof {
        let after = done@;
        let all = words.insert(w0);
        assert forall|w: Seq<char>| #[trigger] all.contains(w) implies exists|i: int|
            0 <= i < after.len() && (#[trigger] after[i])@ == w by {
            if w == w0 {
                assert(after[n as int]@ == w);
            } else {
                let i = choose|i: int| 0 <= i < before.len() && (#[trigger] before[i])@ == w;
                assert(after[i]@ == w);
            }
        }
        assert forall|i: int| 0 <= i < after.len() implies all.contains(#[trigger] after[i]@) by {
            if i < n {
                assert(after[i] == before[i]);
            }
        }
        assert forall|i: int, j: int| 0 <= i < j < after.len() implies (#[trigger] after[i])@ != (
        #[trigger] after[j])@ by {
            assert(after[i] == before[i]);
            if j < n {
                assert(after[j] == before[j]);
            }
        }
    }
}

impl NFA {
    /// Whether no state consumes just any character, so that every way
    /// through the automaton spells a word.
    pub fn can_spell(&self) -> (r: bool)
        ensures
            r == self@.spells(),
    {
        let n = self.transitions.len();
        let mut i: usize = 0;
        while i < n
            invariant
                i <= n,
                n == self.transitions@.len(),
                forall|j: int|
                    0 <= j < i ==> !((#[trigger] self.transitions@[j]) matches Transition::Label(
                        Lit::Any,
                        _,
                    )),
            decreases n - i,
        {
            match self.transitions[i] {
                Transition::Label(Lit::Any, _) => {
                    return false;
                },
                _ => {},
            }
            i = i + 1;
        }
        true
    }

    /// Adds to `done` the words that are spelled from `state` on, after
    /// `word`.
    fn explore(
        &self,
        max_len: usize,
        state: State,
        word: String,
        hops: usize,
        done: &mut Vec<String>,
        Ghost(words): Ghost<Set<Seq<char>>>,
    )
        requires
            self.wf(),
            self@.spells(),
            state.0 < self@.ts.len(),
            hops <= self@.ts.len(),
            holds_words(old(done)@, words),
        ensures
            holds_words(
                final(done)@,
                words.union(
                    self@.words_from(
                        self@.ts.len(),
                        max_len as nat,
                        state.0 as int,
                        word@,
                        hops as nat,
                    ),
                ),
            ),
        decreases room(max_len as nat, word@), self@.ts.len() - hops,
    {
        let ghost a = self@;
        let ghost limit = a.ts.len();
        let ghost found = a.words_from(limit, max_len as nat, state.0 as int, word@, hops as nat);
        if byte_len(word.as_str()) > max_len {
            assert(words.union(found) =~= words);
            return ;
        }
        let mut word = word;
        let ghost w0 = word@;
        assert(super::model::targets_within(a.ts[state.0 as int], a.ts.len() as int));
        match self.transitions[state.0] {
            Transition::Label(l, e) => {
                match l {
                    Lit::Any => {
                        assert(false);
                    },
                    Lit::Char(c) => {
                        word.push(c);
                    },
                    Lit::Range(lo, _) => {
                        word.push(lo);
                    },
                }
                proof {
                    lemma_utf8_len_push(w0, spelled(l));
                    lemma_char_width_bounds(spelled(l));
                }
                self.explore(max_len, e, word, 0, done, Ghost(words));
            },
            Transition::Split(e1, e2) => {
                if hops >= self.transitions.len() {
                    assert(words.union(found) =~= words);
                    return ;
                }
                let ghost mut mid = words;
                if let Some(e1) = e1 {
                    self.explore(max_len, e1, word.clone(), hops + 1, done, Ghost(words));
                    proof {
                        mid =
                        words.union(
                            a.words_from(limit, max_len as nat, e1.0 as int, w0, (hops + 1) as nat),
                        );
                    }
                }
                let ghost mut last = mid;
                if let Some(e2) = e2 {
                    self.explore(max_len, e2, word.clone(), hops + 1, done, Ghost(mid));
                    proof {
                        last =
                        mid.union(
                            a.words_from(limit, max_len as nat, e2.0 as int, w0, (hops + 1) as nat),
                        );
                    }
                }
                assert(last =~= words.union(found));
            },
            Transition::Accept => {
                insert(done, word, Ghost(words));
                assert(words.insert(w0) =~= words.union(found));
            },
            Transition::Group(_, e) => {
                if hops >= self.transitions.len() {
                    assert(words.union(found) =~= words);
                    return ;
                }
                self.explore(max_len, e, word.clone(), hops + 1, done, Ghost(words));
            },
            Transition::Eof => {
                insert(done, word, Ghost(words));
                assert(words.insert(w0) =~= words.union(found));
            },
        }
    }

    /// The words of at most `MAX_LEN` bytes that the automaton spells on its
    /// ways from the start to an accepting or end-of-input state, each once.
    /// A literal contributes its character, a range its lower bound. A way
    /// that makes more moves in a row that consume nothing than there are
    /// states is not followed.
    #[must_use]
    pub fn generate<const MAX_LEN: usize>(&self) -> (r: Vec<String>)
        requires
            self.wf(),
            self@.spells(),
        ensures
            holds_words(r@, self@.words(MAX_LEN as nat)),
    {
        let mut done: Vec<String> = Vec::new();
        let ghost none = Set::<Seq<char>>::empty();
        self.explore(MAX_LEN, self.start, String::new(), 0, &mut done, Ghost(none));
        assert(none.union(self@.words(MAX_LEN as nat)) =~= self@.words(MAX_LEN as nat));
        done
    }

    /// Returns true if `self` can only match a single fixed string: from the
    /// start there is one way only, of single characters, that ends where
    /// nothing follows.
    pub fn is_fixed(&self) -> (r: bool)
        requires
            self.wf(),
        ensures
            r == self@.fixed_from(self@.start.0 as int, self@.ts.len()),
    {
        let ghost a = self@;
        let n = self.transitions.len();
        let mut state = self.start;
        let mut left: usize = n;
        loop
            invariant
                a == self@,
                self.wf(),
                n == a.ts.len(),
                left <= n,
                state.0 < n,
                a.fixed_from(a.start.0 as int, n as nat) == a.fixed_from(state.0 as int, left as nat),
            decreases left,
        {
            assert(super::model::targets_within(a.ts[state.0 as int], a.ts.len() as int));
            match self.transitions[state.0] {
                Transition::Label(l, e) => {
                    match l {
                        Lit::Char(_) => {},
                        _ => {
                            return false;
                        },
                    }
                    if left == 0 {
                        return false;
                    }
                    left = left - 1;
                    state = e;
                },
                Transition::Split(e1, e2) => {
                    return !(e1.is_some() || e2.is_some());
                },
                _ => {
                    return true;
                },
            }
        }
    }
}

} // verus!

verus! {

/// The table of a program without a wildcard holds no state that consumes
/// just any character.
pub proof fn lemma_builder_spells(tokens: Seq<crate::parse::Token>, k: nat)
    requires
        k <= tokens.len(),
        crate::parse::postfix::no_wildcard(tokens),
        super::thompson::builder_run(tokens, k) is Ok,
    ensures
        forall|i: int|
            0 <= i < super::thompson::builder_run(tokens, k)->Ok_0.ts.len() ==> !((
            #[trigger] super::thompson::builder_run(tokens, k)->Ok_0.ts[i]) matches Transition::Label(
                Lit::Any,
                _,
            )),
    decreases k,
{
    if k > 0 {
        lemma_builder_spells(tokens, (k - 1) as nat);
        let b = super::thompson::builder_run(tokens, (k - 1) as nat)->Ok_0;
        let r = super::thompson::builder_run(tokens, k)->Ok_0;
        assert(tokens[k - 1] != crate::parse::Token::Lit(Lit::Any));
        assert forall|i: int| 0 <= i < r.ts.len() implies !((#[trigger] r.ts[i]) matches Transition::Label(
            Lit::Any,
            _,
        )) by {
            if i < b.ts.len() {
                assert(!(b.ts[i] matches Transition::Label(Lit::Any, _)));
            }
        }
    }
}

/// The automaton of a program without a wildcard spells.
pub proof fn lemma_compiled_spells(tokens: Seq<crate::parse::Token>)
    requires
        crate::parse::postfix::no_wildcard(tokens),
        super::thompson::compile_spec(tokens) is Ok,
    ensures
        super::thompson::compile_spec(tokens)->Ok_0.spells(),
{
    lemma_builder_spells(tokens, tokens.len());
    let b = super::thompson::builder_run(tokens, tokens.len())->Ok_0;
    let a = super::thompson::compile_spec(tokens)->Ok_0;
    assert forall|i: int| 0 <= i < a.ts.len() implies !((#[trigger] a.ts[i]) matches Transition::Label(
        Lit::Any,
        _,
    )) by {
        assert(!(b.ts[i] matches Transition::Label(Lit::Any, _)));
    }
}

} // verus!
