//! Transition labels and the ε-NFA that the subset construction reads.
use crate::bits::{bits_of, get_bit, push_bit, set_bit, zeros, StateSet, MAX_BITS};
use vstd::prelude::*;

verus! {

/// A transition label: one character, or ε.
#[derive(Debug, Clone, Copy, PartialEq, Eq, Structural)]
pub enum Symbol {
    Char(char),
    Epsilon,
}

/// The model of an ε-NFA: for each state its labelled edges, the start state,
/// the accepting states and the alphabet.
pub struct NfaView {
    pub trans: Seq<Seq<(Symbol, usize)>>,
    pub start: int,
    pub accept: Seq<bool>,
    pub alphabet: Seq<char>,
}

impl NfaView {
    pub open spec fn num_states(self) -> nat {
        self.trans.len()
    }

    /// There is an edge from `s` to `t` labelled `sym`.
    pub open spec fn edge(self, s: int, sym: Symbol, t: int) -> bool {
        &&& 0 <= s < self.trans.len()
        &&& exists|k: int|
            0 <= k < self.trans[s].len() && (#[trigger] self.trans[s][k]).0 == sym
                && self.trans[s][k].1 as int == t
    }

    pub open spec fn wf(self) -> bool {
        &&& self.num_states() <= MAX_BITS
        &&& self.accept.len() == self.num_states()
        &&& (self.num_states() > 0 ==> 0 <= self.start < self.num_states())
        &&& self.alphabet.no_duplicates()
        &&& forall|s: int, k: int|
            0 <= s < self.trans.len() && 0 <= k < self.trans[s].len() ==> {
                &&& (#[trigger] self.trans[s][k]).1 < self.num_states()
                &&& self.trans[s][k].0 matches Symbol::Char(c) ==> self.alphabet.contains(c)
            }
    }
}

#[derive(Debug)]
pub struct NFAState {
    id: usize,
    transitions: Vec<(Symbol, usize)>,
}

/// An ε-NFA, built one state and one edge at a time.
#[derive(Debug)]
pub struct NFA {
    states: Vec<NFAState>,
    start_state: usize,
    accept_states: StateSet,
    alphabet: Vec<char>,
    regex: String,
}

impl NFA {
    pub closed spec fn view(&self) -> NfaView {
        NfaView {
            trans: self.states@.map_values(|s: NFAState| s.transitions@),
            start: self.start_state as int,
            accept: bits_of(self.accept_states),
            alphabet: self.alphabet@,
        }
    }

    pub closed spec fn regex_text(&self) -> Seq<char> {
        self.regex@
    }

    /// An automaton with no state, for the pattern `regex`.
    pub fn new(regex: String) -> (r: NFA)
        ensures
            r@.wf(),
            r@.num_states() == 0,
            r@.start == 0,
            r@.alphabet.len() == 0,
            r.regex_text() == regex@,
    {
        let r = NFA {
            states: Vec::new(),
            start_state: 0,
            accept_states: zeros(0),
            alphabet: Vec::new(),
            regex,
        };
        assert(r@.trans =~= Seq::empty());
        r
    }

    /// Adds a state with no edge; returns its identifier.
    pub fn add_state(&mut self) -> (id: usize)
        requires
            old(self)@.wf(),
            old(self)@.num_states() < MAX_BITS,
        ensures
            final(self)@.wf(),
            id == old(self)@.num_states(),
            final(self)@.trans == old(self)@.trans.push(Seq::empty()),
            final(self)@.accept == old(self)@.accept.push(false),
            final(self)@.alphabet == old(self)@.alphabet,
            final(self)@.start == (if id == 0 { 0 } else { old(self)@.start }),
            final(self).regex_text() == old(self).regex_text(),
    {
        let id = self.states.len();
        if id == 0 {
            self.start_state = 0;
        }
        self.states.push(NFAState { id, transitions: Vec::new() });
        push_bit(&mut self.accept_states, false);
        proof {
            assert(self@.trans =~= old(self)@.trans.push(Seq::empty()));
            assert forall|s: int, k: int|
                0 <= s < self@.trans.len() && 0 <= k < self@.trans[s].len() implies {
                &&& (#[trigger] self@.trans[s][k]).1 < self@.num_states()
                &&& self@.trans[s][k].0 matches Symbol::Char(c) ==> self@.alphabet.contains(c)
            } by {
                assert(self@.trans[s] == old(self)@.trans[s]);
            }
        }
        id
    }

    /// Adds an edge from `from` to `to` labelled `symbol`; a character label
    /// joins the alphabet.
    pub fn add_transition(&mut self, from: usize, symbol: Symbol, to: usize)
        requires
            old(self)@.wf(),
            from < old(self)@.num_states(),
            to < old(self)@.num_states(),
        ensures
            final(self)@.wf(),
            final(self)@.trans == old(self)@.trans.update(
                from as int,
                old(self)@.trans[from as int].push((symbol, to)),
            ),
            final(self)@.accept == old(self)@.accept,
            final(self)@.start == old(self)@.start,
            final(self)@.alphabet.to_set() == (match symbol {
                Symbol::Char(c) => old(self)@.alphabet.to_set().insert(c),
                Symbol::Epsilon => old(self)@.alphabet.to_set(),
            }),
            final(self).regex_text() == old(self).regex_text(),
    {
        let ghost old_alpha = self.alphabet@;
        match symbol {
            Symbol::Char(c) => {
                let mut j: usize = 0;
                let mut found = false;
                while j < self.alphabet.len()
                    invariant
                        j <= self.alphabet@.len(),
                        found == exists|k: int| 0 <= k < j && self.alphabet@[k] == c,
                    decreases self.alphabet.len() - j,
                {
                    if self.alphabet[j] == c {
                        found = true;
                    }
                    j = j + 1;
                }
                if !found {
                    self.alphabet.push(c);
                    assert(self.alphabet@.to_set() =~= old_alpha.to_set().insert(c)) by {
                        assert(self.alphabet@.last() == c);
                        assert forall|x: char| self.alphabet@.contains(x) implies #[trigger] old_alpha.contains(x) || x == c by {
                            let k = choose|k: int| 0 <= k < self.alphabet@.len() && self.alphabet@[k] == x;
                            if k < old_alpha.len() {
                                assert(old_alpha[k] == x);
                            }
                        }
                        assert forall|x: char| old_alpha.contains(x) implies #[trigger] self.alphabet@.contains(x) by {
                            let k = choose|k: int| 0 <= k < old_alpha.len() && old_alpha[k] == x;
                            assert(self.alphabet@[k] == x);
                        }
                    }
                } else {
                    assert(old_alpha.contains(c));
                    assert(self.alphabet@.to_set() =~= old_alpha.to_set().insert(c));
                }
            },
            Symbol::Epsilon => {},
        }
        let ghost trans_before = self@.trans;
        let mut st = self.states.remove(from);
        st.transitions.push((symbol, to));
        self.states.insert(from, st);
        proof {
            assert(self@.trans =~= trans_before.update(
                from as int,
                trans_before[from as int].push((symbol, to)),
            ));
            assert forall|x: char| old_alpha.contains(x) implies #[trigger] self@.alphabet.contains(x) by {
                assert(old_alpha.to_set().contains(x));
                assert(self@.alphabet.to_set().contains(x));
            }
            assert forall|s: int, k: int|
                0 <= s < self@.trans.len() && 0 <= k < self@.trans[s].len() implies {
                &&& (#[trigger] self@.trans[s][k]).1 < self@.num_states()
                &&& self@.trans[s][k].0 matches Symbol::Char(c) ==> self@.alphabet.contains(c)
            } by {
                if s != from || k < trans_before[s].len() {
                    assert(self@.trans[s][k] == trans_before[s][k]);
                } else {
                    assert(self@.trans[s][k] == (symbol, to));
                    if let Symbol::Char(c) = symbol {
                        assert(self@.alphabet.to_set().contains(c));
                    }
                }
            }
        }
    }

    pub fn set_start_state(&mut self, id: usize)
        requires
            old(self)@.wf(),
            id < old(self)@.num_states(),
        ensures
            final(self)@ == (NfaView { start: id as int, ..old(self)@ }),
            final(self)@.wf(),
            final(self).regex_text() == old(self).regex_text(),
    {
        self.start_state = id;
    }

    pub fn set_accept_state(&mut self, id: usize)
        requires
            old(self)@.wf(),
            id < old(self)@.num_states(),
        ensures
            final(self)@ == (NfaView { accept: old(self)@.accept.update(id as int, true), ..old(self)@ }),
            final(self)@.wf(),
            final(self).regex_text() == old(self).regex_text(),
    {
        set_bit(&mut self.accept_states, id, true);
    }

    pub fn get_num_states(&self) -> (r: usize)
        ensures
            r == self@.num_states(),
    {
        self.states.len()
    }

    pub fn get_start_state(&self) -> (r: usize)
        ensures
            r == self@.start,
    {
        self.start_state
    }

    pub fn is_accept_state(&self, id: usize) -> (r: bool)
        requires
            self@.wf(),
            id < self@.num_states(),
        ensures
            r == self@.accept[id as int],
    {
        get_bit(&self.accept_states, id)
    }

    pub fn get_acceptor_states(&self) -> (r: &StateSet)
        ensures
            bits_of(*r) == self@.accept,
    {
        &self.accept_states
    }

    pub fn get_alphabet(&self) -> (r: &Vec<char>)
        ensures
            r@ == self@.alphabet,
    {
        &self.alphabet
    }

    /// The edges that leave state `id`.
    pub fn get_transitions(&self, id: usize) -> (r: &Vec<(Symbol, usize)>)
        requires
            id < self@.num_states(),
        ensures
            r@ == self@.trans[id as int],
    {
        &self.states[id].transitions
    }

    pub fn get_regex(&self) -> (r: &String)
        ensures
            r@ == self.regex_text(),
    {
        &self.regex
    }
}

} // verus!
