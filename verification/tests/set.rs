use automata_rust::language::{Label, Language, Match};
use automata_rust::lexer::token::{longest, longest_size};
use automata_rust::nfa::{NFASet, Transition, NFA};

fn nfa(pattern: &str) -> NFA {
    NFA::try_from_language(pattern).unwrap()
}

fn shape(nfa: &NFA) -> Vec<String> {
    nfa.transitions
        .iter()
        .map(|t| match t {
            Transition::Label(l, e) => format!("{} -> {}", l.to_text(), e.0),
            Transition::Split(a, b) => format!(
                "{:?} | {:?}",
                a.map(|s| s.0),
                b.map(|s| s.0)
            ),
            Transition::Group(g, e) => format!("{} : {}", g.to_text(), e.0),
            Transition::Eof => "eof".to_string(),
            Transition::Accept => "accept".to_string(),
        })
        .collect()
}

#[test]
fn no_set_without_an_automaton() {
    let none: Vec<(&'static str, NFA)> = vec![];
    assert_eq!(
        NFASet::build(none).err(),
        Some("At least one nfa must be provided".to_string())
    );
}

#[test]
fn one_automaton_is_put_behind_its_group_marker() {
    let set = NFASet::build(vec![("x", nfa("a"))]).unwrap();
    assert_eq!(shape(&set.0), vec!["eof", "accept", "a -> 1", "x : 2"]);
    assert_eq!(set.0.start.0, 3);
    assert_eq!(set.0.accept.0, 1);
    assert_eq!(set.0.eof.0, 0);
}

#[test]
fn the_first_automaton_is_the_base_to_which_the_others_are_appended() {
    let set = NFASet::build(vec![("x", nfa("a")), ("y", nfa("b?"))]).unwrap();
    assert_eq!(
        shape(&set.0),
        vec![
            // the base, labelled x
            "eof",
            "accept",
            "a -> 1",
            "x : 2",
            // what is appended, labelled y, four states further on
            "eof",
            "accept",
            "b -> 1",
            "Some(6) | Some(1)",
            "y : 7",
            // the new start
            "Some(3) | Some(8)",
        ]
    );
    assert_eq!(set.0.start.0, 9);
    assert_eq!(set.0.accept.0, 1);
    assert_eq!(set.0.eof.0, 0);
}

#[test]
fn two_letters_fused() {
    let set = NFASet::build(vec![("x", nfa("a")), ("y", nfa("b"))]).unwrap();
    assert_eq!(
        shape(&set.0),
        vec![
            "eof",
            "accept",
            "a -> 1",
            "x : 2",
            "eof",
            "accept",
            "b -> 1",
            "y : 6",
            "Some(3) | Some(7)",
        ]
    );
    assert_eq!(set.0.start.0, 8);
    assert_eq!(set.0.accept.0, 1);
    assert_eq!(set.0.eof.0, 0);
}

#[test]
fn three_automata_are_appended_in_their_order() {
    let set = NFASet::build(vec![("x", nfa("a")), ("y", nfa("b")), ("z", nfa("c$"))]).unwrap();
    assert_eq!(
        shape(&set.0),
        vec![
            "eof",
            "accept",
            "a -> 1",
            "x : 2",
            "eof",
            "accept",
            "b -> 1",
            "y : 6",
            "Some(3) | Some(7)",
            "eof",
            "accept",
            "c -> 12",
            "Some(0) | None",
            "z : 11",
            "Some(8) | Some(13)",
        ]
    );
    assert_eq!(set.0.start.0, 14);
}

#[test]
fn labels_may_be_given_as_labels() {
    let set = NFASet::build(vec![(Label::from("x"), nfa("a"))]).unwrap();
    assert_eq!(
        set.is_match("a"),
        vec![Match::Group(Label::from("x"), 1)]
    );
}

#[test]
fn every_automaton_of_a_set_comes_to_the_one_end_of_input_state() {
    let set = NFASet::build(vec![("x", nfa("a$")), ("y", nfa("b$"))]).unwrap();
    assert_eq!(set.is_match("a"), vec![Match::Group(Label::from("x"), 1)]);
    assert_eq!(set.is_match("b"), vec![Match::Group(Label::from("y"), 1)]);
    assert_eq!(set.is_match("ab"), vec![]);
    assert_eq!(set.is_match(""), vec![]);
    let set = NFASet::build(vec![("x", nfa("b")), ("y", nfa("a$"))]).unwrap();
    assert_eq!(set.is_match("a"), vec![Match::Group(Label::from("y"), 1)]);
    let set = NFASet::build(vec![("x", nfa("a$")), ("y", nfa("b"))]).unwrap();
    assert_eq!(set.is_match("a"), vec![Match::Group(Label::from("x"), 1)]);
}

#[test]
fn of_two_automata_at_the_end_of_input_the_first_is_reported() {
    let set = NFASet::build(vec![("x", nfa("(a-z)$")), ("y", nfa("a$"))]).unwrap();
    assert_eq!(set.is_match("a"), vec![Match::Group(Label::from("x"), 1)]);
    let set = NFASet::build(vec![("y", nfa("a$")), ("x", nfa("(a-z)$"))]).unwrap();
    assert_eq!(set.is_match("a"), vec![Match::Group(Label::from("y"), 1)]);
    assert_eq!(set.is_match("b"), vec![Match::Group(Label::from("x"), 1)]);
}

#[test]
fn a_keyword_before_the_words_and_after_them() {
    // The groups come in the order in which they first accepted.
    let set = NFASet::build(vec![("kw", nfa("if")), ("id", nfa("(a-z)+"))]).unwrap();
    assert_eq!(
        set.is_match("ifx"),
        vec![
            Match::Group(Label::from("id"), 3),
            Match::Group(Label::from("kw"), 2)
        ]
    );
    assert_eq!(
        set.is_match("if"),
        vec![
            Match::Group(Label::from("id"), 2),
            Match::Group(Label::from("kw"), 2)
        ]
    );
    assert_eq!(
        automata_rust::lexer::token::longest_match(&set, "if"),
        Some((2, Label::from("kw")))
    );
    let set = NFASet::build(vec![("id", nfa("(a-z)+")), ("kw", nfa("if"))]).unwrap();
    assert_eq!(
        set.is_match("ifx"),
        vec![
            Match::Group(Label::from("id"), 3),
            Match::Group(Label::from("kw"), 2)
        ]
    );
    assert_eq!(
        set.is_match("if"),
        vec![
            Match::Group(Label::from("id"), 2),
            Match::Group(Label::from("kw"), 2)
        ]
    );
}

#[test]
fn a_group_keeps_its_longest_prefix_where_another_accepts_with_it() {
    let set = NFASet::build(vec![("first", nfa("aa")), ("second", nfa("a|aa"))]).unwrap();
    assert_eq!(
        set.is_match("aa"),
        vec![
            Match::Group(Label::from("second"), 2),
            Match::Group(Label::from("first"), 2)
        ]
    );
    assert_eq!(
        set.is_match("ab"),
        vec![Match::Group(Label::from("second"), 1)]
    );
}

#[test]
fn a_set_from_a_source_text_has_no_groups() {
    let set = NFASet::try_from_language("ab").unwrap();
    assert_eq!(set.is_match("abc"), vec![Match::NoGroup(2)]);
    assert!(NFASet::try_from_language("(").is_err());
}

#[test]
fn the_set_as_a_table() {
    let set = NFASet::build(vec![("x", nfa("a"))]).unwrap();
    let expected = "\
Type    | State | Label | e1 | e2 | 
------------------------------------
Eof     | 0     |       |    |    | 
Accept: | 1     |       |    |    | 
        | 2     | a     | 1  |    | 
G:      | 3     | x     | 2  |    | 
";
    assert_eq!(set.to_text(), expected);
}

#[test]
fn of_the_longest_matches_the_last_is_taken() {
    assert_eq!(longest(&vec![]), None);
    assert_eq!(longest(&vec![Match::NoGroup(3)]), Some(0));
    assert_eq!(
        longest(&vec![Match::NoGroup(3), Match::NoGroup(5), Match::NoGroup(4)]),
        Some(1)
    );
    assert_eq!(
        longest(&vec![
            Match::NoGroup(5),
            Match::Group(Label::from("x"), 5),
            Match::NoGroup(1)
        ]),
        Some(1)
    );
    assert_eq!(longest_size(&vec![]), 0);
    assert_eq!(
        longest_size(&vec![Match::NoGroup(3), Match::NoGroup(5), Match::NoGroup(4)]),
        5
    );
    assert_eq!(longest_size(&vec![Match::NoGroup(0)]), 0);
}

#[test]
fn the_longest_match_of_a_set_and_what_an_automaton_skips() {
    use_longest();
}

fn use_longest() {
    let set = NFASet::build(vec![("word", nfa("(a-z)+")), ("kw", nfa("if"))]).unwrap();
    assert_eq!(
        automata_rust::lexer::token::longest_match(&set, "if"),
        Some((2, Label::from("kw")))
    );
    assert_eq!(
        automata_rust::lexer::token::longest_match(&set, "iffy!"),
        Some((4, Label::from("word")))
    );
    assert_eq!(automata_rust::lexer::token::longest_match(&set, "!"), None);
    let skip = nfa(r"(\ |\t)*");
    assert_eq!(automata_rust::lexer::token::skip_length(&skip, " \t x"), 3);
    assert_eq!(automata_rust::lexer::token::skip_length(&skip, "x"), 0);
    let none = nfa("a");
    assert_eq!(automata_rust::lexer::token::skip_length(&none, "b"), 0);
}

#[test]
fn what_is_compiled_is_tidy_and_plain() {
    for source in ["a", "a$", "(a|b)*c?", "(0-9)+"] {
        assert!(nfa(source).is_tidy_and_plain(), "{source}");
    }
    // A set has group markers.
    let set = NFASet::build(vec![("x", nfa("a"))]).unwrap();
    assert!(!set.0.is_tidy_and_plain());
    // The empty program starts at its accepting state.
    let empty = NFA::compile(automata_rust::parse::Postfix { tokens: vec![] }).unwrap();
    assert!(!empty.is_tidy_and_plain());
    // An index that names no state.
    let mut broken = nfa("a");
    broken.start = automata_rust::nfa::State(9);
    assert!(!broken.is_tidy_and_plain());
}

#[test]
fn every_label_is_reported_once_with_its_longest_prefix() {
    let set = NFASet::build(vec![
        ("a", nfa("a|ab|abcd")),
        ("b", nfa("(a-c)+")),
        ("c", nfa("ab?")),
        ("d", nfa("x")),
    ])
    .unwrap();
    let mut matches = set.is_match("abcde");
    matches.sort_by_key(|m| match m {
        Match::Group(l, _) => l.to_text(),
        Match::NoGroup(_) => String::new(),
    });
    assert_eq!(
        matches,
        vec![
            Match::Group(Label::from("a"), 4),
            Match::Group(Label::from("b"), 3),
            Match::Group(Label::from("c"), 2),
        ]
    );
}
