use std::collections::{HashMap, HashSet};

use automata_rust::dfa::DFA;
use automata_rust::language::Match;
use automata_rust::nfa::State;
use automata_rust::table::Table;

fn code(c: char) -> u32 {
    c as u32
}

fn even_zeros() -> DFA {
    DFA {
        alphabet: vec!['0', '1'],
        transitions: vec![
            HashMap::from([(code('0'), State(1)), (code('1'), State(0))]),
            HashMap::from([(code('0'), State(0)), (code('1'), State(1))]),
        ],
        start: State(0),
        accept: HashSet::from([0]),
    }
}

#[test]
fn dfa() {
    let dfa = even_zeros();

    println!("{:?}", dfa.is_match("01"));

    assert!(dfa.is_match("01").is_empty());
    assert!(dfa.is_match("0100").is_empty());

    assert!(!dfa.is_match("010").is_empty());
    assert!(!dfa.is_match("00111010").is_empty());
}

#[test]
fn a_deterministic_match_is_of_the_whole_input() {
    let dfa = even_zeros();
    assert_eq!(dfa.is_match(""), vec![Match::NoGroup(0)]);
    assert_eq!(dfa.is_match("010"), vec![Match::NoGroup(3)]);
    assert_eq!(dfa.is_match("0"), vec![]);
}

#[test]
fn a_character_without_a_successor_is_no_match() {
    let dfa = even_zeros();
    assert_eq!(dfa.is_match("2"), vec![]);
    assert_eq!(dfa.is_match("00x00"), vec![]);
    assert_eq!(dfa.is_match("00\u{e9}"), vec![]);
}

#[test]
fn a_table_with_its_columns_aligned() {
    let table = Table::<2>::new(
        ["a".to_string(), "long header".to_string()],
        vec![
            ["cell".to_string(), "x".to_string()],
            ["\u{e9}".to_string(), "".to_string()],
        ],
    );
    let expected = "\
a    | long header | 
---------------------
cell | x           | 
\u{e9}   |             | 
";
    assert_eq!(table.to_text(), expected);
}

#[test]
fn a_table_without_rows() {
    let table = Table::<1>::new(["h".to_string()], vec![]);
    assert_eq!(table.to_text(), "h | \n----\n");
}

#[test]
fn a_successor_that_is_no_state_is_no_match() {
    let mut dfa = even_zeros();
    dfa.transitions[0].insert(code('2'), State(7));
    assert_eq!(dfa.is_match("2"), vec![]);
    assert_eq!(dfa.is_match("00"), vec![Match::NoGroup(2)]);
    dfa.start = State(9);
    assert_eq!(dfa.is_match(""), vec![]);
}
