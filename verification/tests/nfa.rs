use automata_rust::language::{Language, Match};
use automata_rust::nfa::{NFASet, NFA};

#[test]
fn matches() {
    let nfa: NFA = NFA::try_from_language("A?A?A*B").unwrap();
    assert_eq!(nfa.is_match("BB"), (vec![Match::NoGroup(1)]));
    assert_eq!(nfa.is_match("AB"), (vec![Match::NoGroup(2)]));
    assert_eq!(nfa.is_match("AAB"), (vec![Match::NoGroup(3)]));
    assert_eq!(nfa.is_match("AAAB"), (vec![Match::NoGroup(4)]));
    assert_eq!(nfa.is_match("AAAAB"), (vec![Match::NoGroup(5)]));
    assert_eq!(nfa.is_match("BAAAAB"), (vec![Match::NoGroup(1)]));
    assert!(nfa.is_match("AAA").is_empty());
    assert!(nfa.is_match("CAAAAB").is_empty());

    let nfa: NFA = NFA::try_from_language("(A|B)+").unwrap();
    assert!(nfa.is_match("").is_empty());
    assert_eq!(nfa.is_match("AAAA"), vec![Match::NoGroup(4)]);
    assert_eq!(nfa.is_match(&"A".repeat(20)), vec![Match::NoGroup(20)]);
    assert_eq!(nfa.is_match(&"B".repeat(20)), vec![Match::NoGroup(20)]);
    assert_eq!(
        nfa.is_match(&"ABAAB".repeat(20)),
        vec![Match::NoGroup(5 * 20)]
    );
    assert!(nfa.is_match(&"a".repeat(20)).is_empty());

    let nfa: NFA = NFA::try_from_language("(A|B)?C?").unwrap();
    assert_eq!(nfa.is_match(""), (vec![Match::NoGroup(0)]));
    assert_eq!(nfa.is_match("A"), (vec![Match::NoGroup(1)]));
    assert_eq!(nfa.is_match("B"), (vec![Match::NoGroup(1)]));
    assert_eq!(nfa.is_match("C"), (vec![Match::NoGroup(1)]));
    assert_eq!(nfa.is_match("AC"), (vec![Match::NoGroup(2)]));

    let nfa: NFA = NFA::try_from_language(r"\n|\t+").unwrap();
    assert!(nfa.is_match("").is_empty());
    assert_eq!(nfa.is_match("\t\t"), (vec![Match::NoGroup(2)]));
    assert_eq!(nfa.is_match("\n"), (vec![Match::NoGroup(1)]));
    assert_eq!(nfa.is_match("\t\n"), (vec![Match::NoGroup(1)]));
    assert_eq!(nfa.is_match("\n\t"), (vec![Match::NoGroup(1)]));
    assert!(nfa.is_match("\\n\\t").is_empty());
    assert!(nfa.is_match(r"\n\t").is_empty());
}

#[test]
fn eof() {
    let nfa: NFA = NFA::try_from_language("a$").unwrap();
    assert_eq!(nfa.is_match("a"), (vec![Match::NoGroup(1)]));
    assert_eq!(nfa.is_match(""), vec![]);
    assert_eq!(nfa.is_match("aa"), vec![]);

    let nfa: NFA = NFA::try_from_language("a$|b+$").unwrap();
    assert_eq!(nfa.is_match("a"), (vec![Match::NoGroup(1)]));
    assert_eq!(nfa.is_match("b"), vec![Match::NoGroup(1)]);
    assert_eq!(nfa.is_match("bbb"), vec![Match::NoGroup(3)]);
    assert_eq!(nfa.is_match("ab"), vec![]);
    assert_eq!(nfa.is_match("bba"), vec![]);

    let nfa: NFA = NFA::try_from_language("$").unwrap();
    assert_eq!(nfa.is_match(""), vec![Match::NoGroup(0)]);
}

#[test]
fn nfa_set() {
    let nfa = NFASet::build(vec![
        ("(a-z)+", NFA::try_from_language("(a-z)+").unwrap()),
        ("(A-Z)+", NFA::try_from_language("(A-Z)+").unwrap()),
        ("(0-9)+", NFA::try_from_language("(0-9)+").unwrap()),
        ("do", NFA::try_from_language("do").unwrap()),
        ("w|if|b", NFA::try_from_language("while|if|break").unwrap()),
    ])
    .unwrap();

    assert!(!nfa.is_match("abcdefghijklmnopqrstuvwxyz").is_empty());
    assert!(!nfa.is_match("ABCDEFGHIJKLMNOPQRSTUVWXYZ").is_empty());
    assert!(!nfa.is_match("012931230912312912212").is_empty());
    assert!(!nfa.is_match("do").is_empty());
    assert!(!nfa.is_match("while").is_empty());
    assert!(!nfa.is_match("if").is_empty());
    assert!(!nfa.is_match("break").is_empty());

    let mut matches = nfa.is_match("ifbreak");
    matches.sort_by_key(|m| m.match_size());
    assert_eq!(
        matches,
        vec![
            Match::Group("w|if|b".into(), 2),
            Match::Group("(a-z)+".into(), 7)
        ]
    );

    assert!(nfa.is_match("").is_empty());
    assert!(nfa.is_match("!hello").is_empty());
}

fn test_gen<const MAX_LEN: usize>(pattern: &str, possible: usize) {
    let nfa = NFA::try_from_language(pattern).unwrap();
    let gen = nfa.generate::<MAX_LEN>();
    if gen.len() != possible {
        panic!(
            "\nExpected {possible} alternatives but found {}.\n{}",
            gen.len(),
            gen.join("\n")
        );
    }
}

/// Some languages with a known set of unique words with max length N.
#[test]
fn gen() {
    test_gen::<100>("AB|AC|CB|DC", 4);
    test_gen::<100>("A|(A?B)|C", 4);
    test_gen::<100>("(A|B)?", 3);
    test_gen::<100>("A|CB", 2);
    test_gen::<100>("A(A|B)?C((A|B)|(C|D))", 12);
    test_gen::<8>("(A+)(B*)(C?)(D+|E?)", 253);
}
