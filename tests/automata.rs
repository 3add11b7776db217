use regex_dfa::bits::StateSet;
use regex_dfa::dfa::{construct_dfa, construct_minimal_dfa, delta, get_epsilon_closure, LookupTable, DFA};
use regex_dfa::fa::{Symbol, NFA};

/// A fragment of an ε-NFA under construction: its entry and exit states.
struct Frag {
    start: usize,
    end: usize,
}

fn lit(nfa: &mut NFA, chars: &[char]) -> Frag {
    let start = nfa.add_state();
    let end = nfa.add_state();
    for c in chars {
        nfa.add_transition(start, Symbol::Char(*c), end);
    }
    Frag { start, end }
}

fn concat(nfa: &mut NFA, a: Frag, b: Frag) -> Frag {
    nfa.add_transition(a.end, Symbol::Epsilon, b.start);
    Frag { start: a.start, end: b.end }
}

fn alt(nfa: &mut NFA, a: Frag, b: Frag) -> Frag {
    let start = nfa.add_state();
    let end = nfa.add_state();
    nfa.add_transition(start, Symbol::Epsilon, a.start);
    nfa.add_transition(start, Symbol::Epsilon, b.start);
    nfa.add_transition(a.end, Symbol::Epsilon, end);
    nfa.add_transition(b.end, Symbol::Epsilon, end);
    Frag { start, end }
}

fn star(nfa: &mut NFA, a: Frag) -> Frag {
    let start = nfa.add_state();
    let end = nfa.add_state();
    nfa.add_transition(start, Symbol::Epsilon, a.start);
    nfa.add_transition(start, Symbol::Epsilon, end);
    nfa.add_transition(a.end, Symbol::Epsilon, a.start);
    nfa.add_transition(a.end, Symbol::Epsilon, end);
    Frag { start, end }
}

fn plus(nfa: &mut NFA, a: Frag) -> Frag {
    let start = nfa.add_state();
    let end = nfa.add_state();
    nfa.add_transition(start, Symbol::Epsilon, a.start);
    nfa.add_transition(a.end, Symbol::Epsilon, a.start);
    nfa.add_transition(a.end, Symbol::Epsilon, end);
    Frag { start, end }
}

fn finish(mut nfa: NFA, f: Frag) -> NFA {
    nfa.set_start_state(f.start);
    nfa.set_accept_state(f.end);
    nfa
}

fn both(nfa: NFA) -> (DFA, DFA) {
    let dfa = construct_dfa(nfa);
    let min = construct_minimal_dfa(&dfa);
    (dfa, min)
}

fn check(d: &(DFA, DFA), accepted: &[&str], rejected: &[&str]) {
    for w in accepted {
        assert!(d.0.accepts(w), "DFA rejects {:?}", w);
        assert!(d.1.accepts(w), "minimal DFA rejects {:?}", w);
    }
    for w in rejected {
        assert!(!d.0.accepts(w), "DFA accepts {:?}", w);
        assert!(!d.1.accepts(w), "minimal DFA accepts {:?}", w);
    }
}

fn no_epsilon_and_in_range(d: &DFA) {
    for s in 0..d.get_num_states() {
        for (c, t) in d.get_transitions(s) {
            assert!(d.get_alphabet().contains(c));
            assert!(*t < d.get_num_states());
        }
    }
}

#[test]
fn scenario_single_literal() {
    let mut nfa = NFA::new("a".to_string());
    let f = lit(&mut nfa, &['a']);
    let d = both(finish(nfa, f));
    check(&d, &["a"], &["", "b", "aa"]);
    let start = d.0.get_start_state();
    let next = d.0.get_transition(start, 'a').unwrap();
    assert!(d.0.is_accept_state(next));
    assert_eq!(d.1.get_num_states(), 2);
    no_epsilon_and_in_range(&d.0);
    no_epsilon_and_in_range(&d.1);
}

#[test]
fn scenario_star() {
    let mut nfa = NFA::new("a*".to_string());
    let a = lit(&mut nfa, &['a']);
    let f = star(&mut nfa, a);
    let d = both(finish(nfa, f));
    check(&d, &["", "a", "aaa"], &["ab", "b"]);
    assert_eq!(d.1.get_num_states(), 1);
}

#[test]
fn scenario_alternation() {
    let mut nfa = NFA::new("a|b".to_string());
    let a = lit(&mut nfa, &['a']);
    let b = lit(&mut nfa, &['b']);
    let f = alt(&mut nfa, a, b);
    let d = both(finish(nfa, f));
    check(&d, &["a", "b"], &["", "ab"]);
    assert_eq!(d.1.get_num_states(), 2);
}

#[test]
fn scenario_group_star_concat() {
    let mut nfa = NFA::new("(a|b)*c".to_string());
    let a = lit(&mut nfa, &['a']);
    let b = lit(&mut nfa, &['b']);
    let ab = alt(&mut nfa, a, b);
    let s = star(&mut nfa, ab);
    let c = lit(&mut nfa, &['c']);
    let f = concat(&mut nfa, s, c);
    let d = both(finish(nfa, f));
    check(&d, &["c", "ac", "bbac"], &["ab", "", "ca"]);
    assert_eq!(d.1.get_num_states(), 2);
    no_epsilon_and_in_range(&d.1);
}

#[test]
fn scenario_class_plus() {
    let mut nfa = NFA::new("[a-c]+".to_string());
    let cls = lit(&mut nfa, &['a', 'b', 'c']);
    let f = plus(&mut nfa, cls);
    let d = both(finish(nfa, f));
    check(&d, &["a", "abc", "cab"], &["", "ad"]);
    assert_eq!(d.1.get_num_states(), 2);
}

#[test]
fn scenario_escaped_question() {
    let mut nfa = NFA::new("a\\?".to_string());
    let a = lit(&mut nfa, &['a']);
    let q = lit(&mut nfa, &['?']);
    let f = concat(&mut nfa, a, q);
    let d = both(finish(nfa, f));
    check(&d, &["a?"], &["a", "aa", "?"]);
    assert_eq!(d.1.get_num_states(), 3);
}

#[test]
fn subset_construction_numbers_states_in_discovery_order() {
    let mut nfa = NFA::new("ab".to_string());
    let a = lit(&mut nfa, &['a']);
    let b = lit(&mut nfa, &['b']);
    let f = concat(&mut nfa, a, b);
    let dfa = construct_dfa(finish(nfa, f));
    assert_eq!(dfa.get_num_states(), 3);
    assert_eq!(dfa.get_start_state(), 0);
    assert_eq!(dfa.get_transition(0, 'a'), Some(1));
    assert_eq!(dfa.get_transition(1, 'b'), Some(2));
    assert_eq!(dfa.get_transition(0, 'b'), None);
    assert!(!dfa.is_accept_state(0));
    assert!(!dfa.is_accept_state(1));
    assert!(dfa.is_accept_state(2));
    assert_eq!(dfa.get_regex(), "ab");
}

#[test]
fn minimization_merges_equivalent_states() {
    // (a|b)(a|b) written with two copies of each branch: the second
    // positions after `a` and after `b` are equivalent.
    let mut nfa = NFA::new("aa|ab|ba|bb".to_string());
    let x1 = lit(&mut nfa, &['a']);
    let x2 = lit(&mut nfa, &['a', 'b']);
    let left = concat(&mut nfa, x1, x2);
    let y1 = lit(&mut nfa, &['b']);
    let y2 = lit(&mut nfa, &['a', 'b']);
    let right = concat(&mut nfa, y1, y2);
    let f = alt(&mut nfa, left, right);
    let d = both(finish(nfa, f));
    check(&d, &["aa", "ab", "ba", "bb"], &["", "a", "b", "aaa"]);
    assert_eq!(d.0.get_num_states(), 5);
    assert_eq!(d.1.get_num_states(), 3);
}

#[test]
fn minimizing_twice_keeps_the_state_count() {
    let mut nfa = NFA::new("(a|b)*c".to_string());
    let a = lit(&mut nfa, &['a']);
    let b = lit(&mut nfa, &['b']);
    let ab = alt(&mut nfa, a, b);
    let s = star(&mut nfa, ab);
    let c = lit(&mut nfa, &['c']);
    let f = concat(&mut nfa, s, c);
    let (_, min) = both(finish(nfa, f));
    let again = construct_minimal_dfa(&min);
    assert_eq!(again.get_num_states(), min.get_num_states());
    for w in ["", "c", "abc", "ca", "bbbc"] {
        assert_eq!(again.accepts(w), min.accepts(w));
    }
}

#[test]
fn minimal_dfa_states_are_pairwise_distinguishable() {
    let mut nfa = NFA::new("aa|ab|ba|bb".to_string());
    let x1 = lit(&mut nfa, &['a']);
    let x2 = lit(&mut nfa, &['a', 'b']);
    let left = concat(&mut nfa, x1, x2);
    let y1 = lit(&mut nfa, &['b']);
    let y2 = lit(&mut nfa, &['a', 'b']);
    let right = concat(&mut nfa, y1, y2);
    let f = alt(&mut nfa, left, right);
    let (_, min) = both(finish(nfa, f));
    let n = min.get_num_states();
    for s1 in 0..n {
        for s2 in (s1 + 1)..n {
            let same_acc = min.is_accept_state(s1) == min.is_accept_state(s2);
            let same_moves = min
                .get_alphabet()
                .iter()
                .all(|c| min.get_transition(s1, *c) == min.get_transition(s2, *c));
            assert!(!(same_acc && same_moves), "states {} and {} agree", s1, s2);
        }
    }
}

#[test]
fn empty_automaton_minimizes_to_empty() {
    let nfa = NFA::new("".to_string());
    let mut one = NFA::new("x".to_string());
    let s = one.add_state();
    one.set_start_state(s);
    let dfa = construct_dfa(one);
    assert_eq!(dfa.get_num_states(), 1);
    assert!(!dfa.accepts(""));
    let min = construct_minimal_dfa(&dfa);
    assert_eq!(min.get_num_states(), 1);
    assert!(!min.accepts("x"));
    assert_eq!(nfa.get_num_states(), 0);
}

#[test]
fn subset_construction_reads_the_alphabet_in_ascending_order() {
    let mut nfa = NFA::new("b|a".to_string());
    let s0 = nfa.add_state();
    let s1 = nfa.add_state();
    let s2 = nfa.add_state();
    nfa.add_transition(s0, Symbol::Char('b'), s1);
    nfa.add_transition(s0, Symbol::Char('a'), s2);
    nfa.set_start_state(s0);
    nfa.set_accept_state(s1);
    assert_eq!(nfa.get_alphabet(), &vec!['b', 'a']);
    let dfa = construct_dfa(nfa);
    assert_eq!(dfa.get_alphabet(), &vec!['a', 'b']);
    assert_eq!(dfa.get_transition(0, 'a'), Some(1));
    assert_eq!(dfa.get_transition(0, 'b'), Some(2));
    assert!(!dfa.is_accept_state(1));
    assert!(dfa.is_accept_state(2));
    let min = construct_minimal_dfa(&dfa);
    // Block 0 holds the accepting states.
    assert!(min.is_accept_state(0));
    assert!(!min.is_accept_state(1));
    assert!(min.accepts("b"));
    assert!(!min.accepts("a"));
}

#[test]
fn add_transition_replaces_an_existing_edge() {
    let mut dfa = DFA::new(vec!['a'], "a".to_string());
    let s0 = dfa.add_state(false);
    let s1 = dfa.add_state(true);
    dfa.add_transition(s0, 'a', s0);
    dfa.add_transition(s0, 'a', s1);
    assert_eq!(dfa.get_transition(s0, 'a'), Some(s1));
    assert_eq!(dfa.get_transitions(s0).len(), 1);
    assert!(dfa.accepts("a"));
}

#[test]
fn closure_and_delta_on_explicit_state_sets() {
    let mut nfa = NFA::new("ab".to_string());
    let a = lit(&mut nfa, &['a']);
    let b = lit(&mut nfa, &['b']);
    let f = concat(&mut nfa, a, b);
    let nfa = finish(nfa, f);
    let n = nfa.get_num_states();
    let start = StateSet::from_ids(n, &vec![0]);
    let closure = get_epsilon_closure(&nfa, &start);
    assert!(closure.contains(0));
    assert!(!closure.contains(1));
    let after_a = delta(&nfa, &closure, 'a');
    assert!(after_a.contains(1));
    let closed = get_epsilon_closure(&nfa, &after_a);
    assert!(closed.contains(1) && closed.contains(2));
    assert!(!closed.contains(3));
    assert!(!delta(&nfa, &closure, 'b').contains(3));
}

#[test]
fn moving_the_last_state_out_deletes_its_block() {
    let mut table = LookupTable::new(3);
    table.insert_state_in_set(1, 1);
    table.insert_state_in_set(2, 2);
    assert_eq!(table.get_num_sets(), 3);
    // Block 1 empties and is deleted; block 2 keeps its id.
    table.insert_state_in_set(1, 0);
    assert_eq!(table.get_num_sets(), 2);
    assert_eq!(table.get_set_of_state(0), 0);
    assert_eq!(table.get_set_of_state(1), 0);
    assert_eq!(table.get_set_of_state(2), 2);
    assert_eq!(table.next_set_id(), 3);
}

#[test]
fn a_moved_state_lands_in_the_block_asked_for() {
    let mut table = LookupTable::new(2);
    table.insert_state_in_set(1, 1);
    table.insert_state_in_set(0, 1);
    assert_eq!(table.get_set_of_state(0), 1);
    assert_eq!(table.get_set_of_state(1), 1);
    assert_eq!(table.get_num_sets(), 1);
}
