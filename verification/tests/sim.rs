use automata_rust::language::{Label, Language, Match};
use automata_rust::nfa::{NFASet, State, Transition, NFA};
use automata_rust::parse::Lit;

fn nfa(pattern: &str) -> NFA {
    NFA::try_from_language(pattern).unwrap()
}

fn sizes(matches: Vec<Match>) -> Vec<usize> {
    matches.iter().map(|m| m.match_size()).collect()
}

#[test]
fn optional_prefixes_and_a_final_letter() {
    let nfa = nfa("A?A?A*B");
    assert_eq!(nfa.is_match("AAAB"), vec![Match::NoGroup(4)]);
    assert_eq!(nfa.is_match("BB"), vec![Match::NoGroup(1)]);
    assert_eq!(nfa.is_match("AAA"), vec![]);
}

#[test]
fn one_or_more_of_two_letters() {
    let nfa = nfa("(A|B)+");
    assert_eq!(nfa.is_match("ABAAB"), vec![Match::NoGroup(5)]);
    assert_eq!(nfa.is_match(""), vec![]);
    assert_eq!(nfa.is_match("a"), vec![]);
}

#[test]
fn a_letter_at_the_end_of_input() {
    let nfa = nfa("a$");
    assert_eq!(nfa.is_match("a"), vec![Match::NoGroup(1)]);
    assert_eq!(nfa.is_match("aa"), vec![]);
    assert_eq!(nfa.is_match(""), vec![]);
}

#[test]
fn line_feed_or_tabs() {
    let nfa = nfa(r"\n|\t+");
    assert_eq!(nfa.is_match("\t\t"), vec![Match::NoGroup(2)]);
    assert_eq!(nfa.is_match("\n\t"), vec![Match::NoGroup(1)]);
    assert_eq!(nfa.is_match("\\n"), vec![]);
}

#[test]
fn a_match_is_a_prefix_and_the_longest_one() {
    let nfa = nfa("ab|abcd|a");
    assert_eq!(nfa.is_match("abcde"), vec![Match::NoGroup(4)]);
    assert_eq!(nfa.is_match("abce"), vec![Match::NoGroup(2)]);
    assert_eq!(nfa.is_match("ax"), vec![Match::NoGroup(1)]);
    assert_eq!(nfa.is_match("xab"), vec![]);
    for input in ["abcde", "abce", "ax", "a", ""] {
        for m in nfa.is_match(input) {
            assert!(m.match_size() <= input.len());
            assert!(input.is_char_boundary(m.match_size()));
        }
    }
}

#[test]
fn lengths_are_in_bytes() {
    let word = nfa("(\u{e9}|\u{10000}|a)+");
    assert_eq!(word.is_match("\u{e9}"), vec![Match::NoGroup(2)]);
    assert_eq!(word.is_match("\u{e9}a\u{10000}!"), vec![Match::NoGroup(7)]);
    assert_eq!(word.is_match("\u{10000}\u{10000}"), vec![Match::NoGroup(8)]);
    let end = nfa("\u{e9}$");
    assert_eq!(end.is_match("\u{e9}"), vec![Match::NoGroup(2)]);
}

#[test]
fn an_accepted_prefix_and_the_end_of_input_are_both_reported() {
    let nfa = nfa("a|a$");
    assert_eq!(
        nfa.is_match("a"),
        vec![Match::NoGroup(1), Match::NoGroup(1)]
    );
    assert_eq!(nfa.is_match("ab"), vec![Match::NoGroup(1)]);
    let nfa = nfa_of("a*|ab$");
    assert_eq!(
        nfa.is_match("ab"),
        vec![Match::NoGroup(1), Match::NoGroup(2)]
    );
}

fn nfa_of(pattern: &str) -> NFA {
    nfa(pattern)
}

#[test]
fn a_pattern_that_ends_with_the_end_of_input_matches_whole_inputs_only() {
    let nfa = nfa("(a|b)*c$");
    for input in ["c", "abc", "bbac", "", "ab", "abca", "cc", "abcc"] {
        let whole = input.ends_with('c')
            && input[..input.len() - 1].chars().all(|c| c == 'a' || c == 'b');
        let expected = if whole {
            vec![Match::NoGroup(input.len())]
        } else {
            vec![]
        };
        assert_eq!(nfa.is_match(input), expected, "{input}");
    }
}

#[test]
fn loops_of_moves_that_consume_nothing_are_left() {
    let nfa = nfa("(A*)*");
    assert_eq!(nfa.is_match("AAB"), vec![Match::NoGroup(2)]);
    assert_eq!(nfa.is_match(""), vec![Match::NoGroup(0)]);
    let nfa = nfa_of("(A?)+B");
    assert_eq!(nfa.is_match("AAB"), vec![Match::NoGroup(3)]);
    assert_eq!(nfa.is_match("B"), vec![Match::NoGroup(1)]);
}

#[test]
fn the_wildcard_and_ranges_in_a_hand_made_automaton() {
    let nfa = NFA {
        transitions: vec![
            Transition::Eof,
            Transition::Accept,
            Transition::Label(Lit::Any, State(3)),
            Transition::Label(Lit::Range('0', '9'), State(1)),
        ],
        start: State(2),
        accept: State(1),
        eof: State(0),
    };
    assert_eq!(nfa.is_match("\n7x"), vec![Match::NoGroup(2)]);
    assert_eq!(nfa.is_match("\u{e9}0"), vec![Match::NoGroup(3)]);
    assert_eq!(nfa.is_match("ab"), vec![]);
    assert_eq!(nfa.is_match("a"), vec![]);
}

#[test]
fn the_group_of_a_match_is_the_innermost_marker() {
    let nfa = NFA {
        transitions: vec![
            Transition::Eof,
            Transition::Accept,
            Transition::Label(Lit::Char('a'), State(1)),
            Transition::Group(Label::from("inner"), State(2)),
            Transition::Group(Label::from("outer"), State(3)),
        ],
        start: State(4),
        accept: State(1),
        eof: State(0),
    };
    assert_eq!(
        nfa.is_match("ab"),
        vec![Match::Group(Label::from("inner"), 1)]
    );
}

#[test]
fn each_group_is_reported_with_its_longest_match() {
    let set = NFASet::build(vec![
        ("digits", nfa("(0-9)+")),
        ("letters", nfa("(a-z)+")),
        ("ab", nfa("ab|a")),
    ])
    .unwrap();
    assert_eq!(
        set.is_match("12a"),
        vec![Match::Group(Label::from("digits"), 2)]
    );
    assert_eq!(sizes(set.is_match("x1")), vec![1]);
    for m in set.is_match("zz") {
        assert!(matches!(m, Match::Group(_, _)));
    }
}

#[test]
fn two_groups_that_accept_the_same_prefix_are_both_reported() {
    let set = NFASet::build(vec![("word", nfa("(a-z)+")), ("kw", nfa("if"))]).unwrap();
    assert_eq!(
        set.is_match("if"),
        vec![
            Match::Group(Label::from("word"), 2),
            Match::Group(Label::from("kw"), 2)
        ]
    );
    assert_eq!(
        set.is_match("ifx"),
        vec![
            Match::Group(Label::from("word"), 3),
            Match::Group(Label::from("kw"), 2)
        ]
    );
}

#[test]
fn match_sizes() {
    assert_eq!(Match::NoGroup(3).match_size(), 3);
    assert_eq!(Match::Group(Label::from("x"), 5).match_size(), 5);
    assert_eq!(Match::from((None, 4)), Match::NoGroup(4));
    assert_eq!(
        Match::from((Some(Label::from("x")), 4)),
        Match::Group(Label::from("x"), 4)
    );
}

#[test]
fn labels_are_names() {
    let label = Label::from("name");
    assert_eq!(label.to_text(), "name");
    assert!(label.same(&Label::from("name")));
    assert!(!label.same(&Label::from("names")));
    let name: &'static str = label.into();
    assert_eq!(name, "name");
}

#[test]
fn words_that_an_automaton_spells() {
    let mut words = nfa("A|CB").generate::<100>();
    words.sort();
    assert_eq!(words, vec!["A", "CB"]);
    let mut words = nfa_of("(a-c)x?").generate::<100>();
    words.sort();
    assert_eq!(words, vec!["a", "ax"]);
    let mut words = nfa_of("A+").generate::<3>();
    words.sort();
    assert_eq!(words, vec!["A", "AA", "AAA"]);
    let mut words = nfa_of("a$|b").generate::<3>();
    words.sort();
    assert_eq!(words, vec!["a", "b"]);
    let mut words = nfa_of("(A*)*").generate::<2>();
    words.sort();
    assert_eq!(words, vec!["", "A", "AA"]);
    let mut words = nfa_of("\u{e9}a|a").generate::<2>();
    words.sort();
    assert_eq!(words, vec!["a"]);
}

#[test]
fn only_a_chain_of_single_characters_is_fixed() {
    assert!(nfa("abc").is_fixed());
    assert!(nfa("a").is_fixed());
    assert!(!nfa("a|b").is_fixed());
    assert!(!nfa("a*").is_fixed());
    assert!(!nfa("ab?").is_fixed());
    assert!(!nfa("(a-z)").is_fixed());
    assert!(!nfa("a$").is_fixed());
    assert!(NFA::new().is_fixed());
}

#[test]
fn an_automaton_whose_indices_are_its_states_is_well_formed() {
    assert!(NFA::new().is_well_formed());
    assert!(nfa("(a|b)*c$").is_well_formed());
    let mut broken = nfa("ab");
    broken.transitions.push(Transition::Label(Lit::Char('x'), State(99)));
    assert!(!broken.is_well_formed());
    let mut broken = nfa_of("ab");
    broken.transitions.push(Transition::Split(None, Some(State(99))));
    assert!(!broken.is_well_formed());
    let mut broken = nfa_of("ab");
    broken.start = State(4);
    assert!(!broken.is_well_formed());
    let mut fine = nfa_of("ab");
    fine.transitions.push(Transition::Split(None, Some(State(4))));
    assert!(fine.is_well_formed());
}

#[test]
fn an_automaton_with_a_wildcard_spells_no_words() {
    assert!(nfa("a(b-c)*").can_spell());
    let mut wild = nfa_of("ab");
    wild.transitions.push(Transition::Label(Lit::Any, State(1)));
    assert!(!wild.can_spell());
}

#[test]
fn every_source_text_gives_an_automaton_that_spells() {
    for source in ["a", ".", "\\.", "(a-z)+", "a|b*c?", "(0-9)+$", "((a|b)(c-d))*"] {
        assert!(nfa_of(source).can_spell(), "{source}");
    }
}
