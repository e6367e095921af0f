use vstd::prelude::*;
use crate::language::{Label, Language, Match};
use crate::nfa::{NFASet, NFA};
use crate::text::is_prefix_len;

verus! {

/// A token with the byte offsets at which it starts and ends.
#[derive(Debug, Clone, Copy, PartialEq, Eq)]
pub struct Spanned<T> {
    pub start: usize,
    pub token: T,
    pub end: usize,
}

/// The match at index `i` is at least as long as every other, and longer
/// than those after it.
pub open spec fn is_longest(matches: Seq<Match>, i: int) -> bool {
    &&& 0 <= i < matches.len()
    &&& forall|j: int| 0 <= j < matches.len() ==> (#[trigger] matches[j]).size() <= matches[i].size()
    &&& forall|j: int| i < j < matches.len() ==> (#[trigger] matches[j]).size() < matches[i].size()
}

/// The greatest length among the matches, or zero if there are none.
pub open spec fn max_size(matches: Seq<Match>) -> nat
    decreases matches.len(),
{
    if matches.len() == 0 {
        0
    } else {
        let rest = max_size(matches.drop_last());
        if matches.last().size() >= rest {
            matches.last().size() as nat
        } else {
            rest
        }
    }
}

/// The index of the longest match; of several that are longest, the last.
pub fn longest(matches: &Vec<Match>) -> (r: Option<usize>)
    ensures
        match r {
            None => matches@.len() == 0,
            Some(i) => is_longest(matches@, i as int),
        },
{
    let n = matches.len();
    if n == 0 {
        return None;
    }
    let mut best: usize = 0;
    let mut i: usize = 1;
    while i < n
        invariant
            1 <= i <= n,
            n == matches@.len(),
            best < i,
            forall|j: int| 0 <= j < i ==> (#[trigger] matches@[j]).size() <= matches@[best as int].size(),
            forall|j: int| best < j < i ==> (#[trigger] matches@[j]).size() < matches@[best as int].size(),
        decreases n - i,
    {
        if matches[i].match_size() >= matches[best].match_size() {
            best = i;
        }
        i = i + 1;
    }
    Some(best)
}

/// The greatest length among the matches, or zero if there are none.
pub fn longest_size(matches: &Vec<Match>) -> (r: usize)
    ensures
        r == max_size(matches@),
        r == 0 || exists|i: int| 0 <= i < matches@.len() && (#[trigger] matches@[i]).size() == r,
{
    let n = matches.len();
    let mut best: usize = 0;
    let mut i: usize = 0;
    while i < n
        invariant
            i <= n,
            n == matches@.len(),
            best == max_size(matches@.take(i as int)),
            best == 0 || exists|j: int| 0 <= j < i && (#[trigger] matches@[j]).size() == best,
        decreases n - i,
    {
        let size = matches[i].match_size();
        assert(matches@.take(i + 1).drop_last() == matches@.take(i as int));
        if size >= best {
            best = size;
        }
        i = i + 1;
    }
    assert(matches@.take(n as int) == matches@);
    best
}

/// The longest match of the set at the start of `input`: its length in
/// bytes and its label. Of several that are longest, the one that the set
/// reports last.
pub fn longest_match(set: &NFASet, input: &str) -> (r: Option<(usize, Label)>)
    requires
        set.wf(),
        set.labelled(),
    ensures
        match r {
            None => set.0@.matches(input@).len() == 0,
            Some((size, label)) => exists|i: int|
                is_longest(set.0@.matches(input@), i) && (#[trigger] set.0@.matches(input@)[i])
                    == Match::Group(label, size),
        },
        r matches Some((size, _)) ==> is_prefix_len(input@, size as int),
{
    // Find longest match
    let matches = set.is_match(input);
    match longest(&matches) {
        Some(i) => {
            proof {
                crate::nfa::model::lemma_labelled_report(set.0@, input@, matches@, i as int);
                crate::nfa::model::lemma_report_prefix(set.0@, input@, matches@, i as int);
            }
            match matches[i] {
                Match::Group(label, size) => Some((size, label)),
                Match::NoGroup(_) => {
                    assert(false);
                    None
                },
            }
        },
        None => None,
    }
}

/// How many bytes the longest match of `skip` at the start of `input`
/// takes, or zero if there is none.
pub fn skip_length(skip: &NFA, input: &str) -> (r: usize)
    requires
        skip.wf(),
    ensures
        r == max_size(skip@.matches(input@)),
        is_prefix_len(input@, r as int),
{
    let matches = skip.is_match(input);
    let size = longest_size(&matches);
    proof {
        if size == 0 {
            assert(input@.take(0) =~= Seq::<char>::empty());
            assert(crate::text::utf8_len(Seq::<char>::empty()) == 0);
            assert(crate::text::utf8_len(input@.take(0)) == 0);
        } else {
            let i = choose|i: int| 0 <= i < matches@.len() && (#[trigger] matches@[i]).size() == size;
            crate::nfa::model::lemma_report_prefix(skip@, input@, matches@, i);
        }
    }
    size
}

/// Whether the match of the given length and label is the longest among
/// `matches`; of several that are longest, the last.
pub open spec fn longest_is(matches: Seq<Match>, size: usize, label: Label) -> bool {
    exists|i: int| is_longest(matches, i) && (#[trigger] matches[i]) == Match::Group(label, size)
}

/// What a kind of token tells the tokenizer: the fused automaton of its
/// patterns, the automaton of what is skipped between tokens, the token for
/// the end of input if there is one, and the token of each label.
pub trait Token: Sized {
    /// The longest match of the token set at the start of `input`: its
    /// length in bytes and its token. Of several that are longest, the one
    /// that the set reports last. The token set is one that `get_token_set`
    /// may give, and the token one that `token_from_label` may give for the
    /// label of that match.
    #[must_use]
    fn next_match(input: &str) -> (r: Option<(usize, Self)>)
        ensures
            r matches Some((size, _)) ==> is_prefix_len(input@, size as int),
            r is None ==> exists|set: &'static NFASet| #[trigger]
                call_ensures(Self::get_token_set, (), set) && set.0@.matches(input@).len() == 0,
            r matches Some((size, token)) ==> exists|set: &'static NFASet, label: Label|
                #![trigger call_ensures(Self::get_token_set, (), set), call_ensures(Self::token_from_label, (label.0,), token)]
                call_ensures(Self::get_token_set, (), set) && call_ensures(
                    Self::token_from_label,
                    (label.0,),
                    token,
                ) && longest_is(set.0@.matches(input@), size, label),
    {
        let set = Self::get_token_set();
        match longest_match(set, input) {
            Some((size, label)) => {
                let token = Self::token_from_label(label.into());
                let r = Some((size, token));
                assert(r matches Some((_, t)) && call_ensures(Self::token_from_label, (label.0,), t));
                r
            },
            None => None,
        }
    }

    /// How many bytes at the start of `input` are to be skipped: the length
    /// of the longest match of the skip automaton, or zero if it has none.
    /// The skip automaton is one that `skip_reg` may give.
    #[must_use]
    fn skip_chars(input: &str) -> (r: usize)
        ensures
            is_prefix_len(input@, r as int),
            exists|skip: &'static NFA| #[trigger]
                call_ensures(Self::skip_reg, (), skip) && r == max_size(skip@.matches(input@)),
    {
        skip_length(Self::skip_reg(), input)
    }

    /// The automaton of what is skipped between tokens.
    #[must_use]
    fn skip_reg() -> (r: &'static NFA)
        ensures
            r.wf(),
    ;

    /// The token for the end of input, if there is one.
    #[must_use]
    fn eof() -> Option<Self>;

    /// The pattern of what is skipped between tokens.
    #[must_use]
    fn get_skip_reg() -> &'static str;

    /// The fused automaton of the token patterns.
    #[must_use]
    fn get_token_set() -> (r: &'static NFASet)
        ensures
            r.wf(),
            r.labelled(),
    ;

    /// The token that the pattern with the given label stands for.
    #[must_use]
    fn token_from_label(label: &'static str) -> Self;
}

} // verus!
