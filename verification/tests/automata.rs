use lexgen::nfa::{StateSet, Transition, NFA};
use lexgen::regex_parser::parse_regex;
use lexgen::dfa::DFA;

fn nfa_for(regex: &str) -> NFA {
    NFA::from_regex(&parse_regex(regex).unwrap())
}

#[test]
fn state_set_basics() {
    let mut s = StateSet::new(4);
    assert!(!s.contains(2));
    s.insert(2);
    assert!(s.contains(2));
    assert!(!s.contains(3));
    assert!(!s.is_empty());
    assert!(StateSet::new(4).is_empty());
    let t = s.duplicate();
    assert!(t.set_eq(&s));
}

#[test]
fn thompson_char_wiring() {
    let nfa = nfa_for("a");
    assert_eq!(nfa.state_count, 2);
    assert_eq!(nfa.start_state.0, 0);
    assert_eq!(nfa.accept_states.len(), 1);
    assert_eq!(nfa.accept_states[0].0, 1);
    assert_eq!(nfa.transitions.len(), 1);
    let (from, label, to) = nfa.transitions[0];
    assert_eq!(from.0, 0);
    assert_eq!(to.0, 1);
    assert_eq!(label, Transition::Char('a'));
}

#[test]
fn thompson_dot_excludes_newline() {
    let nfa = nfa_for(".");
    // Every printable character except newline: 0x20..=0x7E is 95 chars.
    assert_eq!(nfa.transitions.len(), 95);
    for (_, label, _) in &nfa.transitions {
        match label {
            Transition::Char(c) => assert!(*c != '\n' && (' '..='~').contains(c)),
            Transition::Epsilon => panic!("dot adds no epsilon edges"),
        }
    }
}

#[test]
fn thompson_negated_class() {
    let nfa = nfa_for("[^a]");
    assert_eq!(nfa.transitions.len(), 94);
    for (_, label, _) in &nfa.transitions {
        assert!(*label != Transition::Char('a'));
    }
}

#[test]
fn epsilon_closure_follows_chains() {
    // a* wires: 0 -eps-> 1, 0 -eps-> 2, 2 -a-> 3, 3 -eps-> 1, 3 -eps-> 2.
    let nfa = nfa_for("a*");
    let mut start = StateSet::new(nfa.state_count);
    start.insert(nfa.start_state.0);
    let cl = nfa.epsilon_closure(&start);
    assert!(cl.contains(0));
    assert!(cl.contains(1));
    assert!(cl.contains(2));
    assert!(!cl.contains(3));
}

#[test]
fn epsilon_closure_is_idempotent() {
    let nfa = nfa_for("(a|b)*c?");
    let mut start = StateSet::new(nfa.state_count);
    start.insert(nfa.start_state.0);
    let once = nfa.epsilon_closure(&start);
    let twice = nfa.epsilon_closure(&once);
    assert!(twice.set_eq(&once));
}

#[test]
fn move_collects_char_targets() {
    let nfa = nfa_for("a*");
    let mut start = StateSet::new(nfa.state_count);
    start.insert(nfa.start_state.0);
    let cl = nfa.epsilon_closure(&start);
    let moved = nfa.move_on_char(&cl, 'a');
    assert!(moved.contains(3));
    assert!(!moved.contains(0));
    let nothing = nfa.move_on_char(&cl, 'b');
    assert!(nothing.is_empty());
}

#[test]
fn empty_nfa_construction() {
    let nfa = NFA::new();
    assert_eq!(nfa.state_count, 0);
    assert_eq!(nfa.transitions.len(), 0);
    assert_eq!(nfa.accept_states.len(), 0);
}

#[test]
fn dfa_rows_cover_whole_alphabet() {
    let dfa = DFA::from_nfas(vec![(nfa_for("ab"), 0), (nfa_for("[a-z]+"), 1)]);
    assert_eq!(dfa.start_state.0, 0);
    assert_eq!(dfa.transitions.len(), dfa.states.len());
    for row in &dfa.transitions {
        assert_eq!(row.len(), 95);
        for entry in row {
            if let Some(t) = entry {
                assert!(*t < dfa.states.len());
            }
        }
    }
}

#[test]
fn dfa_accepting_states_carry_lowest_rule() {
    let dfa = DFA::from_nfas(vec![(nfa_for("ab"), 0), (nfa_for("[a-z]+"), 1)]);
    // Walk "ab" through the table: both rules accept, rule 0 must win.
    let mut state = dfa.start_state.0;
    for c in "ab".chars() {
        let ci = (c as usize) - 32;
        state = dfa.transitions[state][ci].expect("transition must exist");
    }
    assert!(dfa.states[state].is_accepting);
    assert_eq!(dfa.states[state].rule_index, Some(0));
    // After one character only the class rule accepts.
    let mid = dfa.transitions[dfa.start_state.0][('a' as usize) - 32].unwrap();
    assert!(dfa.states[mid].is_accepting);
    assert_eq!(dfa.states[mid].rule_index, Some(1));
}

#[test]
fn dfa_deduplicates_states() {
    let dfa = DFA::from_nfas(vec![(nfa_for("[ab]"), 0)]);
    // start, the accepting state, and nothing else.
    assert_eq!(dfa.states.len(), 2);
}

#[test]
fn longest_match_reports_length_and_rule() {
    let dfa = DFA::from_nfas(vec![(nfa_for("ab"), 0), (nfa_for("[a-z]+"), 1)]);
    let chars: Vec<char> = "abx!".chars().collect();
    let (len, rule) = dfa.longest_match(&chars, 0);
    assert_eq!(len, 3);
    assert_eq!(rule, Some(1));
    let (len, rule) = dfa.longest_match(&chars, 3);
    assert_eq!(len, 0);
    assert_eq!(rule, None);
}

#[test]
fn simulate_tracks_lines_and_columns() {
    let dfa = DFA::from_nfas(vec![(nfa_for("[a-z]+"), 0)]);
    let tokens = dfa.simulate("ab\ncd");
    assert_eq!(tokens.len(), 3);
    assert_eq!(tokens[0], ("ab".to_string(), 1, 1, Some(0)));
    assert_eq!(tokens[1], ("cd".to_string(), 2, 1, Some(0)));
    assert_eq!(tokens[2], ("".to_string(), 2, 3, None));
}

#[test]
fn simulate_is_deterministic() {
    let dfa = DFA::from_nfas(vec![(nfa_for("a+"), 0), (nfa_for("b"), 1)]);
    let first = dfa.simulate("aababb!aa");
    let second = dfa.simulate("aababb!aa");
    assert_eq!(first, second);
}

#[test]
fn simulate_skips_unmatched_characters() {
    let dfa = DFA::from_nfas(vec![(nfa_for("a"), 0)]);
    let tokens = dfa.simulate("xay");
    assert_eq!(tokens.len(), 2);
    assert_eq!(tokens[0], ("a".to_string(), 1, 2, Some(0)));
    assert_eq!(tokens[1], ("".to_string(), 1, 4, None));
}
