use std::collections::BTreeSet;

use automata_rust::language::{Label, Language, Match};
use automata_rust::nfa::{NFASet, NFA};
use automata_rust::parse::{Lit, Postfix, Token};

enum Pattern {
    Lit(Lit),
    End,
    Cat(Box<Pattern>, Box<Pattern>),
    Alt(Box<Pattern>, Box<Pattern>),
    Star(Box<Pattern>),
    Plus(Box<Pattern>),
    Opt(Box<Pattern>),
}

fn pattern_of(tokens: &[Token]) -> Pattern {
    let mut stack: Vec<Pattern> = Vec::new();
    for token in tokens {
        match token {
            Token::Lit(l) => stack.push(Pattern::Lit(*l)),
            Token::Eof => stack.push(Pattern::End),
            Token::KleeneS => {
                let a = stack.pop().unwrap();
                stack.push(Pattern::Star(Box::new(a)));
            }
            Token::KleeneP => {
                let a = stack.pop().unwrap();
                stack.push(Pattern::Plus(Box::new(a)));
            }
            Token::Optional => {
                let a = stack.pop().unwrap();
                stack.push(Pattern::Opt(Box::new(a)));
            }
            Token::Concat => {
                let b = stack.pop().unwrap();
                let a = stack.pop().unwrap();
                stack.push(Pattern::Cat(Box::new(a), Box::new(b)));
            }
            Token::Union => {
                let b = stack.pop().unwrap();
                let a = stack.pop().unwrap();
                stack.push(Pattern::Alt(Box::new(a), Box::new(b)));
            }
            Token::OParen | Token::CParen | Token::Range => unreachable!(),
        }
    }
    assert_eq!(stack.len(), 1);
    stack.pop().unwrap()
}

/// Where the pattern can stand after it has been matched from `from` on;
/// `ended` is set if it can come to an end-of-input sign at the end of the
/// input.
fn after(p: &Pattern, input: &[char], from: usize, ended: &mut bool) -> BTreeSet<usize> {
    let mut out = BTreeSet::new();
    match p {
        Pattern::Lit(l) => {
            if from < input.len() && l.accepts(input[from]) {
                out.insert(from + 1);
            }
        }
        Pattern::End => {
            if from == input.len() {
                *ended = true;
            }
        }
        Pattern::Cat(a, b) => {
            for mid in after(a, input, from, ended) {
                out.extend(after(b, input, mid, ended));
            }
        }
        Pattern::Alt(a, b) => {
            out.extend(after(a, input, from, ended));
            out.extend(after(b, input, from, ended));
        }
        Pattern::Opt(a) => {
            out.insert(from);
            out.extend(after(a, input, from, ended));
        }
        Pattern::Star(a) | Pattern::Plus(a) => {
            let mut seen = BTreeSet::new();
            let mut work = vec![from];
            let mut first = true;
            while let Some(at) = work.pop() {
                if !first && !seen.insert(at) {
                    continue;
                }
                let next = after(a, input, at, ended);
                if first {
                    first = false;
                    if matches!(p, Pattern::Star(_)) {
                        seen.insert(at);
                        out.insert(at);
                    }
                }
                for to in next {
                    out.insert(to);
                    if !seen.contains(&to) {
                        work.push(to);
                    }
                }
            }
        }
    }
    out
}

fn bytes(input: &[char], chars: usize) -> usize {
    input[..chars].iter().map(|c| c.len_utf8()).sum()
}

fn expected(p: &Pattern, input: &[char]) -> Vec<Match> {
    let mut ended = false;
    let ends = after(p, input, 0, &mut ended);
    let mut all = Vec::new();
    if let Some(longest) = ends.iter().max() {
        all.push(Match::NoGroup(bytes(input, *longest)));
    }
    if ended {
        all.push(Match::NoGroup(bytes(input, input.len())));
    }
    all
}

fn inputs(alphabet: &[char], max: usize) -> Vec<Vec<char>> {
    let mut all = vec![vec![]];
    let mut last = vec![vec![]];
    for _ in 0..max {
        let mut next = Vec::new();
        for word in &last {
            for c in alphabet {
                let mut longer: Vec<char> = word.clone();
                longer.push(*c);
                next.push(longer);
            }
        }
        all.extend(next.iter().cloned());
        last = next;
    }
    all
}

const PATTERNS: [&str; 24] = [
    "a",
    "ab",
    "a|b",
    "a*",
    "a+",
    "a?",
    "(a|b)*c",
    "(ab)*",
    "(a*)*",
    "(a?)*b",
    "(a+)+",
    "(a*b*)*c?",
    "a$",
    "(a|b)*$",
    "a$|b",
    "(a$)?b",
    "a*|a*b$",
    "(a|ab)(c|bc)?",
    "(a-b)+c",
    "$",
    "(a$)*",
    "a(b$|c)*",
    "\u{e9}+a?",
    "(a|\u{e9}b)*$",
];

#[test]
fn an_automaton_matches_what_its_pattern_means() {
    let words = inputs(&['a', 'b', 'c', '\u{e9}'], 5);
    for source in PATTERNS {
        let program = Postfix::parse(source).unwrap();
        let pattern = pattern_of(&program.tokens);
        let nfa = NFA::compile(program).unwrap();
        for word in &words {
            let text: String = word.iter().collect();
            assert_eq!(
                nfa.is_match(&text),
                expected(&pattern, word),
                "{source} on {text}"
            );
        }
    }
}

#[test]
fn a_set_matches_what_its_patterns_mean() {
    let sources = ["(a|b)+", "ab$", "a*c", "b$", "a|aba"];
    let labels: [&'static str; 5] = ["one", "two", "three", "four", "five"];
    let patterns: Vec<Pattern> = sources
        .iter()
        .map(|s| pattern_of(&Postfix::parse(s).unwrap().tokens))
        .collect();
    let set = NFASet::build(
        sources
            .iter()
            .zip(labels)
            .map(|(s, l)| (l, NFA::try_from_language(s).unwrap()))
            .collect(),
    )
    .unwrap();
    for word in inputs(&['a', 'b', 'c'], 5) {
        let text: String = word.iter().collect();
        let matches = set.is_match(&text);
        let mut longest = None;
        let mut first_to_end = None;
        for (i, pattern) in patterns.iter().enumerate() {
            let mut ended = false;
            let ends = after(pattern, &word, 0, &mut ended);
            // Every group is reported with the longest prefix that its
            // pattern matches, and once only.
            let of_label: Vec<usize> = matches
                .iter()
                .filter(|m| matches!(m, Match::Group(l, _) if *l == Label::from(labels[i])))
                .map(|m| m.match_size())
                .collect();
            let mut expected: Vec<usize> = ends.iter().max().into_iter().copied().collect();
            if ended && first_to_end.is_none() {
                first_to_end = Some(i);
                expected.push(word.len());
            }
            assert_eq!(of_label, expected, "{text}: {}", labels[i]);
            for end in ends {
                longest = longest.max(Some(end));
            }
            if ended {
                longest = longest.max(Some(word.len()));
            }
        }
        for m in &matches {
            assert!(matches!(m, Match::Group(_, _)), "{text}: a match without a group");
        }
        // The longest match is the longest prefix that any pattern matches.
        assert_eq!(
            matches.iter().map(|m| m.match_size()).max(),
            longest,
            "{text}"
        );
    }
}
