//! Subset construction (ε-NFA to DFA) and partition-refinement minimization.
use crate::bits::{any_bit, bits_and, ones, bits_clone, bits_eq, bits_of, get_bit, set_bit, some_set, zeros, StateSet};
use crate::fa::{NfaView, Symbol, NFA};
use crate::regex::code;
use vstd::arithmetic::power2::{lemma_pow2_unfold, pow2};
use vstd::prelude::*;
use vstd::set_lib::{lemma_int_range, lemma_len_subset, lemma_len_union, lemma_map_size_bound, set_int_range};

verus! {

// ---------------------------------------------------------------------------
// State sets of an NFA
// ---------------------------------------------------------------------------

/// Every member of `a` is a member of `b`.
pub open spec fn subset(a: Seq<bool>, b: Seq<bool>) -> bool {
    a.len() == b.len() && forall|i: int| 0 <= i < a.len() && #[trigger] a[i] ==> b[i]
}

/// `s` is closed under the ε-edges of `n`.
pub open spec fn eps_closed(n: NfaView, s: Seq<bool>) -> bool {
    forall|p: int, t: int|
        0 <= p < s.len() && #[trigger] s[p] && #[trigger] n.edge(p, Symbol::Epsilon, t) ==> 0 <= t
            < s.len() && s[t]
}

/// `r` is the ε-closure of `q`: the least superset of `q` closed under ε-edges.
pub open spec fn is_eps_closure(n: NfaView, q: Seq<bool>, r: Seq<bool>) -> bool {
    &&& r.len() == n.num_states()
    &&& subset(q, r)
    &&& eps_closed(n, r)
    &&& forall|s: Seq<bool>|
        s.len() == n.num_states() && subset(q, s) && #[trigger] eps_closed(n, s) ==> subset(r, s)
}

/// The states that a `c`-edge reaches from a member of `q`.
pub open spec fn step_set(n: NfaView, q: Seq<bool>, c: char) -> Seq<bool> {
    Seq::new(
        n.num_states(),
        |t: int| exists|p: int| 0 <= p < q.len() && q[p] && #[trigger] n.edge(p, Symbol::Char(c), t),
    )
}

/// `a` and `b` have a common member.
pub open spec fn meets(a: Seq<bool>, b: Seq<bool>) -> bool {
    exists|i: int| 0 <= i < a.len() && i < b.len() && #[trigger] a[i] && b[i]
}

/// The number of cleared bits of `s`.
pub open spec fn count_clear(s: Seq<bool>) -> nat
    decreases s.len(),
{
    if s.len() == 0 {
        0
    } else {
        count_clear(s.drop_last()) + if s.last() {
            0nat
        } else {
            1nat
        }
    }
}

proof fn lemma_count_clear_set(s: Seq<bool>, i: int)
    requires
        0 <= i < s.len(),
        !s[i],
    ensures
        count_clear(s.update(i, true)) < count_clear(s),
    decreases s.len(),
{
    let u = s.update(i, true);
    if i == s.len() - 1 {
        assert(u.drop_last() =~= s.drop_last());
    } else {
        assert(u.drop_last() =~= s.drop_last().update(i, true));
        lemma_count_clear_set(s.drop_last(), i);
    }
}

/// The ε-closure of the states in `nfa_states`.
pub fn get_epsilon_closure(nfa: &NFA, nfa_states: &StateSet) -> (r: StateSet)
    requires
        nfa@.wf(),
        bits_of(*nfa_states).len() == nfa@.num_states(),
    ensures
        is_eps_closure(nfa@, bits_of(*nfa_states), bits_of(r)),
{
    let ghost q = bits_of(*nfa_states);
    let n = nfa.get_num_states();
    let mut closure = bits_clone(nfa_states);
    let mut queue = ones(nfa_states);
    while queue.len() > 0
        invariant
            nfa@.wf(),
            n == nfa@.num_states(),
            bits_of(closure).len() == n,
            subset(q, bits_of(closure)),
            forall|k: int|
                0 <= k < queue@.len() ==> #[trigger] queue@[k] < n && bits_of(closure)[queue@[k] as int],
            forall|p: int, t: int|
                0 <= p < n && bits_of(closure)[p] && !queue@.contains(p as usize) && #[trigger] nfa@.edge(
                    p,
                    Symbol::Epsilon,
                    t,
                ) ==> bits_of(closure)[t],
            forall|s: Seq<bool>|
                s.len() == n && subset(q, s) && #[trigger] eps_closed(nfa@, s) ==> subset(
                    bits_of(closure),
                    s,
                ),
        decreases count_clear(bits_of(closure)), queue@.len(),
    {
        let ghost qold = queue@;
        let p = queue.pop().unwrap();
        proof {
            assert(qold =~= queue@.push(p));
            assert forall|p2: int|
                0 <= p2 < n && p2 != p && !queue@.contains(p2 as usize) implies !#[trigger] qold.contains(
                p2 as usize,
            ) by {
                if qold.contains(p2 as usize) {
                    let k = choose|k: int| 0 <= k < qold.len() && qold[k] == p2 as usize;
                    assert(queue@[k] == p2 as usize);
                }
            }
        }
        let edges = nfa.get_transitions(p);
        let ghost count0 = count_clear(bits_of(closure));
        let ghost len0 = queue@.len();
        let mut j: usize = 0;
        while j < edges.len()
            invariant
                nfa@.wf(),
                n == nfa@.num_states(),
                p < n,
                edges@ == nfa@.trans[p as int],
                j <= edges@.len(),
                bits_of(closure).len() == n,
                bits_of(closure)[p as int],
                subset(q, bits_of(closure)),
                forall|k: int|
                    0 <= k < queue@.len() ==> #[trigger] queue@[k] < n && bits_of(closure)[queue@[k] as int],
                forall|p2: int, t: int|
                    0 <= p2 < n && p2 != p && bits_of(closure)[p2] && !queue@.contains(p2 as usize)
                        && #[trigger] nfa@.edge(p2, Symbol::Epsilon, t) ==> bits_of(closure)[t],
                forall|k: int|
                    0 <= k < j && (#[trigger] edges@[k]).0 == Symbol::Epsilon ==> bits_of(
                        closure,
                    )[edges@[k].1 as int],
                forall|s: Seq<bool>|
                    s.len() == n && subset(q, s) && #[trigger] eps_closed(nfa@, s) ==> subset(
                        bits_of(closure),
                        s,
                    ),
                count_clear(bits_of(closure)) < count0 || (count_clear(bits_of(closure)) == count0
                    && queue@.len() == len0),
            decreases edges.len() - j,
        {
            let (sym, t) = edges[j];
            assert(nfa@.trans[p as int][j as int] == (sym, t));
            if sym == Symbol::Epsilon && !get_bit(&closure, t) {
                let ghost before = bits_of(closure);
                let ghost qbefore = queue@;
                proof {
                    lemma_count_clear_set(before, t as int);
                    assert forall|s: Seq<bool>|
                        s.len() == n && subset(q, s) && #[trigger] eps_closed(nfa@, s) implies subset(
                            before.update(t as int, true),
                            s,
                        ) by {
                        assert(nfa@.edge(p as int, Symbol::Epsilon, t as int));
                        assert(s[p as int]);
                    }
                }
                set_bit(&mut closure, t, true);
                queue.push(t);
                proof {
                    assert forall|p2: int, t2: int|
                        0 <= p2 < n && p2 != p && bits_of(closure)[p2] && !queue@.contains(
                            p2 as usize,
                        ) && #[trigger] nfa@.edge(p2, Symbol::Epsilon, t2) implies bits_of(
                        closure,
                    )[t2] by {
                        if p2 == t {
                            assert(queue@[queue@.len() - 1] == t);
                        } else if qbefore.contains(p2 as usize) {
                            let k = choose|k: int| 0 <= k < qbefore.len() && qbefore[k] == p2 as usize;
                            assert(queue@[k] == p2 as usize);
                        }
                    }
                }
            }
            j = j + 1;
        }
        proof {
            assert forall|p2: int, t: int|
                0 <= p2 < n && bits_of(closure)[p2] && !queue@.contains(p2 as usize)
                    && #[trigger] nfa@.edge(p2, Symbol::Epsilon, t) implies bits_of(closure)[t] by {
                if p2 == p {
                    let k = choose|k: int|
                        0 <= k < nfa@.trans[p2].len() && (#[trigger] nfa@.trans[p2][k]).0
                            == Symbol::Epsilon && nfa@.trans[p2][k].1 as int == t;
                    assert(edges@[k].0 == Symbol::Epsilon);
                }
            }
        }
    }
    proof {
        assert forall|p: int, t: int|
            0 <= p < bits_of(closure).len() && #[trigger] bits_of(closure)[p] && #[trigger] nfa@.edge(
                p,
                Symbol::Epsilon,
                t,
            ) implies 0 <= t < bits_of(closure).len() && bits_of(closure)[t] by {
            let k = choose|k: int|
                0 <= k < nfa@.trans[p].len() && (#[trigger] nfa@.trans[p][k]).0 == Symbol::Epsilon
                    && nfa@.trans[p][k].1 as int == t;
            assert(nfa@.trans[p][k].1 < n);
        }
    }
    closure
}

/// The states that a `c`-edge reaches from a member of `q`.
pub fn delta(nfa: &NFA, q: &StateSet, c: char) -> (r: StateSet)
    requires
        nfa@.wf(),
        bits_of(*q).len() == nfa@.num_states(),
    ensures
        bits_of(r) == step_set(nfa@, bits_of(*q), c),
{
    let n = nfa.get_num_states();
    let mut result = zeros(n);
    let nodes = ones(q);
    let mut idx: usize = 0;
    while idx < nodes.len()
        invariant
            nfa@.wf(),
            n == nfa@.num_states(),
            bits_of(*q).len() == n,
            idx <= nodes@.len(),
            forall|k: int| 0 <= k < nodes@.len() ==> #[trigger] nodes@[k] < n && bits_of(*q)[nodes@[k] as int],
            bits_of(result).len() == n,
            forall|t: int|
                0 <= t < n ==> (#[trigger] bits_of(result)[t] <==> exists|j: int|
                    0 <= j < idx && #[trigger] nfa@.edge(nodes@[j] as int, Symbol::Char(c), t)),
        decreases nodes.len() - idx,
    {
        let p = nodes[idx];
        assert(p < n);
        let edges = nfa.get_transitions(p);
        let mut k: usize = 0;
        while k < edges.len()
            invariant
                nfa@.wf(),
                n == nfa@.num_states(),
                p < n,
                p == nodes@[idx as int],
                idx < nodes@.len(),
                edges@ == nfa@.trans[p as int],
                k <= edges@.len(),
                bits_of(result).len() == n,
                forall|t: int|
                    0 <= t < n ==> (#[trigger] bits_of(result)[t] <==> (exists|j: int|
                        0 <= j < idx && #[trigger] nfa@.edge(nodes@[j] as int, Symbol::Char(c), t))
                        || exists|k2: int|
                        0 <= k2 < k && (#[trigger] edges@[k2]).0 == Symbol::Char(c) && edges@[k2].1 as int
                            == t),
            decreases edges.len() - k,
        {
            let (sym, t) = edges[k];
            assert(nfa@.trans[p as int][k as int] == (sym, t));
            if sym == Symbol::Char(c) {
                set_bit(&mut result, t, true);
            }
            k = k + 1;
        }
        proof {
            assert forall|t: int| 0 <= t < n implies (#[trigger] bits_of(result)[t] <==> exists|j: int|
                0 <= j < idx + 1 && #[trigger] nfa@.edge(nodes@[j] as int, Symbol::Char(c), t)) by {
                if exists|k2: int|
                    0 <= k2 < edges@.len() && (#[trigger] edges@[k2]).0 == Symbol::Char(c) && edges@[k2].1 as int == t {
                    let k2 = choose|k2: int|
                        0 <= k2 < edges@.len() && (#[trigger] edges@[k2]).0 == Symbol::Char(c) && edges@[k2].1 as int == t;
                    assert(nfa@.trans[p as int][k2] == edges@[k2]);
                    assert(nfa@.edge(nodes@[idx as int] as int, Symbol::Char(c), t));
                }
                if exists|j: int| 0 <= j < idx + 1 && #[trigger] nfa@.edge(nodes@[j] as int, Symbol::Char(c), t) {
                    let j = choose|j: int| 0 <= j < idx + 1 && #[trigger] nfa@.edge(nodes@[j] as int, Symbol::Char(c), t);
                    if j == idx {
                        let k2 = choose|k2: int|
                            0 <= k2 < nfa@.trans[p as int].len() && (#[trigger] nfa@.trans[p as int][k2]).0
                                == Symbol::Char(c) && nfa@.trans[p as int][k2].1 as int == t;
                        assert(edges@[k2] == nfa@.trans[p as int][k2]);
                    }
                }
            }
        }
        idx = idx + 1;
    }
    proof {
        assert forall|t: int| 0 <= t < n implies bits_of(result)[t] == step_set(nfa@, bits_of(*q), c)[t] by {
            if exists|p2: int| 0 <= p2 < bits_of(*q).len() && bits_of(*q)[p2] && #[trigger] nfa@.edge(p2, Symbol::Char(c), t) {
                let p2 = choose|p2: int| 0 <= p2 < bits_of(*q).len() && bits_of(*q)[p2] && #[trigger] nfa@.edge(p2, Symbol::Char(c), t);
                assert(nodes@.contains(p2 as usize));
                let j = choose|j: int| 0 <= j < nodes@.len() && nodes@[j] == p2 as usize;
                assert(nfa@.edge(nodes@[j] as int, Symbol::Char(c), t));
            }
            if bits_of(result)[t] {
                let j = choose|j: int| 0 <= j < nodes@.len() && #[trigger] nfa@.edge(nodes@[j] as int, Symbol::Char(c), t);
                assert(bits_of(*q)[nodes@[j] as int]);
            }
        }
    }
    assert(bits_of(result) =~= step_set(nfa@, bits_of(*q), c));
    result
}

// ---------------------------------------------------------------------------
// Deterministic automata
// ---------------------------------------------------------------------------

/// The model of a DFA: for each state its character-labelled edges, the start
/// state, the accepting states and the alphabet. No edge carries ε.
pub struct DfaView {
    pub trans: Seq<Seq<(char, usize)>>,
    pub start: int,
    pub accept: Seq<bool>,
    pub alphabet: Seq<char>,
}

impl DfaView {
    pub open spec fn num_states(self) -> nat {
        self.trans.len()
    }

    /// State `s` has an edge on `c`.
    pub open spec fn has_next(self, s: int, c: char) -> bool {
        exists|k: int| 0 <= k < self.trans[s].len() && (#[trigger] self.trans[s][k]).0 == c
    }

    /// The position of the edge on `c` among the edges of `s`.
    pub open spec fn edge_index(self, s: int, c: char) -> int {
        choose|k: int| 0 <= k < self.trans[s].len() && (#[trigger] self.trans[s][k]).0 == c
    }

    /// The state that `s` goes to on `c`, if it has an edge on `c`.
    pub open spec fn next(self, s: int, c: char) -> Option<int> {
        if self.has_next(s, c) {
            let k = choose|k: int| 0 <= k < self.trans[s].len() && (#[trigger] self.trans[s][k]).0 == c;
            Some(self.trans[s][k].1 as int)
        } else {
            None
        }
    }

    pub open spec fn wf(self) -> bool {
        &&& self.accept.len() == self.num_states()
        &&& (self.num_states() > 0 ==> 0 <= self.start < self.num_states())
        &&& (self.num_states() == 0 ==> self.start == 0)
        &&& self.alphabet.no_duplicates()
        &&& forall|s: int, k: int|
            0 <= s < self.trans.len() && 0 <= k < self.trans[s].len() ==> {
                &&& (#[trigger] self.trans[s][k]).1 < self.num_states()
                &&& self.alphabet.contains(self.trans[s][k].0)
            }
        &&& forall|s: int, k1: int, k2: int|
            0 <= s < self.trans.len() && 0 <= k1 < self.trans[s].len() && 0 <= k2
                < self.trans[s].len() && k1 != k2 ==> #[trigger] self.trans[s][k1].0
                != #[trigger] self.trans[s][k2].0
    }

    /// Whether the run from `s` on `w` ends in an accepting state; a missing
    /// edge rejects.
    pub open spec fn accepts_from(self, s: int, w: Seq<char>) -> bool
        decreases w.len(),
    {
        if w.len() == 0 {
            0 <= s < self.accept.len() && self.accept[s]
        } else {
            match self.next(s, w[0]) {
                Some(t) => self.accepts_from(t, w.drop_first()),
                None => false,
            }
        }
    }

    pub open spec fn accepts(self, w: Seq<char>) -> bool {
        self.num_states() > 0 && self.accepts_from(self.start, w)
    }
}

#[derive(Debug)]
pub struct DFAState {
    id: usize,
    transitions: Vec<(char, usize)>,
}

/// A deterministic automaton: each state has at most one edge per character.
#[derive(Debug)]
pub struct DFA {
    states: Vec<DFAState>,
    start_state: usize,
    accept_states: Vec<bool>,
    alphabet: Vec<char>,
    regex: String,
}

impl DFA {
    pub closed spec fn view(&self) -> DfaView {
        DfaView {
            trans: self.states@.map_values(|s: DFAState| s.transitions@),
            start: self.start_state as int,
            accept: self.accept_states@,
            alphabet: self.alphabet@,
        }
    }

    pub closed spec fn regex_text(&self) -> Seq<char> {
        self.regex@
    }

    /// An automaton with no state over `alphabet`.
    pub fn new(alphabet: Vec<char>, regex: String) -> (r: DFA)
        requires
            alphabet@.no_duplicates(),
        ensures
            r@.wf(),
            r@.num_states() == 0,
            r@.start == 0,
            r@.alphabet == alphabet@,
            r.regex_text() == regex@,
    {
        let r = DFA { states: Vec::new(), start_state: 0, accept_states: Vec::new(), alphabet, regex };
        assert(r@.trans =~= Seq::empty());
        r
    }

    /// Adds a state with no edge; returns its identifier. The start state is
    /// kept: on an automaton with no state it is 0, the first state added.
    pub fn add_state(&mut self, accepting: bool) -> (id: usize)
        requires
            old(self)@.wf(),
        ensures
            final(self)@.wf(),
            id == old(self)@.num_states(),
            final(self)@.trans == old(self)@.trans.push(Seq::empty()),
            final(self)@.accept == old(self)@.accept.push(accepting),
            final(self)@.alphabet == old(self)@.alphabet,
            final(self)@.start == old(self)@.start,
            final(self).regex_text() == old(self).regex_text(),
    {
        let id = self.states.len();
        self.states.push(DFAState { id, transitions: Vec::new() });
        self.accept_states.push(accepting);
        proof {
            assert(self@.trans =~= old(self)@.trans.push(Seq::empty()));
            assert forall|s: int, k: int|
                0 <= s < self@.trans.len() && 0 <= k < self@.trans[s].len() implies {
                &&& (#[trigger] self@.trans[s][k]).1 < self@.num_states()
                &&& self@.alphabet.contains(self@.trans[s][k].0)
            } by {
                assert(self@.trans[s] == old(self)@.trans[s]);
            }
            assert forall|s: int, k1: int, k2: int|
                0 <= s < self@.trans.len() && 0 <= k1 < self@.trans[s].len() && 0 <= k2
                    < self@.trans[s].len() && k1 != k2 implies #[trigger] self@.trans[s][k1].0
                != #[trigger] self@.trans[s][k2].0 by {
                assert(self@.trans[s] == old(self)@.trans[s]);
            }
        }
        id
    }

    /// Sets the edge from `from` on `c` to `to`: a new edge, or one that
    /// replaces the target of the edge already there.
    pub fn add_transition(&mut self, from: usize, c: char, to: usize)
        requires
            old(self)@.wf(),
            from < old(self)@.num_states(),
            to < old(self)@.num_states(),
            old(self)@.alphabet.contains(c),
        ensures
            final(self)@.wf(),
            !old(self)@.has_next(from as int, c) ==> final(self)@.trans == old(self)@.trans.update(
                from as int,
                old(self)@.trans[from as int].push((c, to)),
            ),
            old(self)@.has_next(from as int, c) ==> final(self)@.trans == old(self)@.trans.update(
                from as int,
                old(self)@.trans[from as int].update(old(self)@.edge_index(from as int, c), (c, to)),
            ),
            final(self)@.next(from as int, c) == Some(to as int),
            final(self)@.accept == old(self)@.accept,
            final(self)@.start == old(self)@.start,
            final(self)@.alphabet == old(self)@.alphabet,
            final(self).regex_text() == old(self).regex_text(),
    {
        let ghost before = self@.trans;
        let mut st = self.states.remove(from);
        assert(st.transitions@ == before[from as int]);
        let mut k: usize = 0;
        let mut found = false;
        while k < st.transitions.len() && !found
            invariant
                st.transitions@ == before[from as int],
                k <= st.transitions@.len(),
                found ==> k < st.transitions@.len() && st.transitions@[k as int].0 == c,
                forall|k2: int| 0 <= k2 < k ==> (#[trigger] st.transitions@[k2]).0 != c,
            decreases st.transitions.len() - k + if found {
                0int
            } else {
                1int
            },
        {
            if st.transitions[k].0 == c {
                found = true;
            } else {
                k = k + 1;
            }
        }
        if found {
            st.transitions.set(k, (c, to));
        } else {
            st.transitions.push((c, to));
        }
        self.states.insert(from, st);
        proof {
            let row = self@.trans[from as int];
            if found {
                assert(before[from as int][k as int].0 == c);
                assert(old(self)@.has_next(from as int, c));
                let k0 = old(self)@.edge_index(from as int, c);
                assert(before[from as int][k0].0 == c);
                assert(k0 == k as int);
                assert(self@.trans =~= before.update(from as int, before[from as int].update(k as int, (c, to))));
            } else {
                assert(!old(self)@.has_next(from as int, c)) by {
                    if old(self)@.has_next(from as int, c) {
                        let k0 = old(self)@.edge_index(from as int, c);
                        assert(before[from as int][k0].0 == c);
                    }
                }
                assert(self@.trans =~= before.update(from as int, before[from as int].push((c, to))));
            }
            assert forall|s: int, k1: int|
                0 <= s < self@.trans.len() && 0 <= k1 < self@.trans[s].len() implies {
                &&& (#[trigger] self@.trans[s][k1]).1 < self@.num_states()
                &&& self@.alphabet.contains(self@.trans[s][k1].0)
            } by {
                if s != from || (k1 < before[s].len() && k1 != k) {
                    assert(self@.trans[s][k1] == before[s][k1]);
                }
            }
            assert forall|s: int, k1: int, k2: int|
                0 <= s < self@.trans.len() && 0 <= k1 < self@.trans[s].len() && 0 <= k2
                    < self@.trans[s].len() && k1 != k2 implies #[trigger] self@.trans[s][k1].0
                != #[trigger] self@.trans[s][k2].0 by {
                if s != from {
                    assert(self@.trans[s] == before[s]);
                } else {
                    if k1 != k && k1 < before[s].len() {
                        assert(row[k1] == before[s][k1]);
                    }
                    if k2 != k && k2 < before[s].len() {
                        assert(row[k2] == before[s][k2]);
                    }
                    if k1 == k {
                        assert(row[k1].0 == c);
                    }
                    if k2 == k {
                        assert(row[k2].0 == c);
                    }
                }
            }
            assert(row[k as int] == (c, to));
            let kk = choose|kk: int| 0 <= kk < row.len() && (#[trigger] row[kk]).0 == c;
            assert(kk == k as int);
        }
    }

    /// Makes `id` the start state.
    pub fn set_start_state(&mut self, id: usize)
        requires
            old(self)@.wf(),
            id < old(self)@.num_states(),
        ensures
            final(self)@ == (DfaView { start: id as int, ..old(self)@ }),
            final(self)@.wf(),
            final(self).regex_text() == old(self).regex_text(),
    {
        self.start_state = id;
    }

    /// The state that `from` goes to on `c`, if any.
    pub fn get_transition(&self, from: usize, c: char) -> (r: Option<usize>)
        requires
            self@.wf(),
            from < self@.num_states(),
        ensures
            match r {
                Some(t) => self@.next(from as int, c) == Some(t as int),
                None => self@.next(from as int, c) is None,
            },
    {
        let edges = &self.states[from].transitions;
        assert(edges@ == self@.trans[from as int]);
        let mut k: usize = 0;
        while k < edges.len()
            invariant
                self@.wf(),
                from < self@.num_states(),
                edges@ == self@.trans[from as int],
                k <= edges@.len(),
                forall|k2: int| 0 <= k2 < k ==> (#[trigger] edges@[k2]).0 != c,
            decreases edges.len() - k,
        {
            if edges[k].0 == c {
                assert(self@.trans[from as int][k as int].0 == c);
                assert(self@.has_next(from as int, c));
                let ghost k0 = choose|k2: int|
                    0 <= k2 < self@.trans[from as int].len() && (#[trigger] self@.trans[from as int][k2]).0 == c;
                assert(k0 == k as int);
                return Some(edges[k].1);
            }
            k = k + 1;
        }
        None
    }

    /// Whether the automaton accepts `input`.
    pub fn accepts(&self, input: &str) -> (r: bool)
        requires
            self@.wf(),
        ensures
            r == self@.accepts(input@),
    {
        if self.states.len() == 0 {
            return false;
        }
        let w = crate::regex::chars_of(input);
        let mut s: usize = self.start_state;
        let mut i: usize = 0;
        assert(w@.subrange(0, w@.len() as int) =~= input@);
        while i < w.len()
            invariant
                self@.wf(),
                self@.num_states() > 0,
                s < self@.num_states(),
                i <= w@.len(),
                w@ == input@,
                self@.accepts(input@) == self@.accepts_from(s as int, w@.subrange(i as int, w@.len() as int)),
            decreases w.len() - i,
        {
            let ghost rest = w@.subrange(i as int, w@.len() as int);
            assert(rest.drop_first() =~= w@.subrange(i + 1, w@.len() as int));
            match self.get_transition(s, w[i]) {
                None => return false,
                Some(t) => {
                    proof {
                        let k = choose|k: int|
                            0 <= k < self@.trans[s as int].len() && (#[trigger] self@.trans[s as int][k]).0 == w@[i as int];
                        assert(self@.trans[s as int][k].1 < self@.num_states());
                    }
                    s = t;
                },
            }
            i = i + 1;
        }
        self.accept_states[s]
    }

    pub fn get_num_states(&self) -> (r: usize)
        ensures
            r == self@.num_states(),
    {
        self.states.len()
    }

    pub fn get_start_state(&self) -> (r: usize)
        ensures
            r == self@.start,
    {
        self.start_state
    }

    pub fn is_accept_state(&self, id: usize) -> (r: bool)
        requires
            self@.wf(),
            id < self@.num_states(),
        ensures
            r == self@.accept[id as int],
    {
        self.accept_states[id]
    }

    pub fn get_alphabet(&self) -> (r: &Vec<char>)
        ensures
            r@ == self@.alphabet,
    {
        &self.alphabet
    }

    /// The edges that leave state `id`.
    pub fn get_transitions(&self, id: usize) -> (r: &Vec<(char, usize)>)
        requires
            id < self@.num_states(),
        ensures
            r@ == self@.trans[id as int],
    {
        &self.states[id].transitions
    }

    pub fn get_regex(&self) -> (r: &String)
        ensures
            r@ == self.regex_text(),
    {
        &self.regex
    }
}

// ---------------------------------------------------------------------------
// Subset construction
// ---------------------------------------------------------------------------

/// The set holding the state `x` alone, among `len` states.
pub open spec fn singleton(len: nat, x: int) -> Seq<bool> {
    Seq::new(len, |i: int| i == x)
}

/// What the subset construction owes for state `i` of `d` and character `c`:
/// an edge on `c` exactly when some `c`-edge leaves the NFA states of `i`, and
/// then one to the state whose NFA states are the ε-closure of their targets.
pub open spec fn subset_row(n: NfaView, d: DfaView, sets: Seq<Seq<bool>>, i: int, c: char) -> bool {
    if some_set(step_set(n, sets[i], c)) {
        &&& d.has_next(i, c)
        &&& 0 <= d.next(i, c)->0 < sets.len()
        &&& is_eps_closure(n, step_set(n, sets[i], c), sets[d.next(i, c)->0])
    } else {
        !d.has_next(i, c)
    }
}

/// `d` is the subset automaton of `n`, state `i` of `d` standing for the set
/// `sets[i]` of states of `n`.
pub open spec fn is_subset_dfa(n: NfaView, d: DfaView, sets: Seq<Seq<bool>>) -> bool {
    &&& d.wf()
    &&& d.alphabet.to_set() == n.alphabet.to_set()
    &&& ascending(d.alphabet)
    &&& d.num_states() > 0
    &&& d.start == 0
    &&& sets.len() == d.num_states()
    &&& sets.no_duplicates()
    &&& forall|i: int| 0 <= i < sets.len() ==> (#[trigger] sets[i]).len() == n.num_states()
    &&& is_eps_closure(n, singleton(n.num_states(), n.start), sets[0])
    &&& forall|i: int| 0 <= i < sets.len() ==> d.accept[i] == meets(#[trigger] sets[i], n.accept)
    &&& forall|i: int, c: char|
        0 <= i < sets.len() && n.alphabet.contains(c) ==> #[trigger] subset_row(n, d, sets, i, c)
}

/// State `k` of `d` is the target of an edge that leaves a state numbered
/// below `k`.
pub open spec fn reached_from_below(d: DfaView, k: int) -> bool {
    exists|j: int, c: char| 0 <= j < k && #[trigger] d.next(j, c) == Some(k)
}

/// The bit sequences of length `n`.
pub open spec fn all_bit_seqs(n: nat) -> Set<Seq<bool>>
    decreases n,
{
    if n == 0 {
        Set::empty().insert(Seq::<bool>::empty())
    } else {
        let prev = all_bit_seqs((n - 1) as nat);
        prev.map(|s: Seq<bool>| s.push(false)).union(prev.map(|s: Seq<bool>| s.push(true)))
    }
}

proof fn lemma_all_bit_seqs(n: nat)
    ensures
        all_bit_seqs(n).finite(),
        all_bit_seqs(n).len() <= pow2(n),
        forall|s: Seq<bool>| s.len() == n ==> #[trigger] all_bit_seqs(n).contains(s),
    decreases n,
{
    if n == 0 {
        vstd::arithmetic::power2::lemma2_to64();
        assert forall|s: Seq<bool>| s.len() == n implies #[trigger] all_bit_seqs(n).contains(s) by {
            assert(s =~= Seq::<bool>::empty());
        }
    } else {
        let m = (n - 1) as nat;
        lemma_all_bit_seqs(m);
        let prev = all_bit_seqs(m);
        let f = |s: Seq<bool>| s.push(false);
        let g = |s: Seq<bool>| s.push(true);
        lemma_map_size_bound(prev, prev.map(f), f);
        lemma_map_size_bound(prev, prev.map(g), g);
        lemma_len_union(prev.map(f), prev.map(g));
        lemma_pow2_unfold(n);
        assert forall|s: Seq<bool>| s.len() == n implies #[trigger] all_bit_seqs(n).contains(s) by {
            let t = s.drop_last();
            assert(prev.contains(t));
            if s.last() {
                assert(s =~= g(t));
                assert(prev.map(g).contains(s));
            } else {
                assert(s =~= f(t));
                assert(prev.map(f).contains(s));
            }
        }
    }
}

/// Distinct sets of states among `n` number at most 2^n.
proof fn lemma_distinct_sets_bound(sets: Seq<Seq<bool>>, n: nat)
    requires
        sets.no_duplicates(),
        forall|i: int| 0 <= i < sets.len() ==> (#[trigger] sets[i]).len() == n,
    ensures
        sets.len() <= pow2(n),
{
    lemma_all_bit_seqs(n);
    sets.unique_seq_to_set();
    assert(sets.to_set().subset_of(all_bit_seqs(n)));
    lemma_len_subset(sets.to_set(), all_bit_seqs(n));
}

/// A row of the subset automaton holds on as long as the row's edges and the
/// sets it names stay.
proof fn lemma_subset_row_frame(
    n: NfaView,
    d1: DfaView,
    d2: DfaView,
    g1: Seq<Seq<bool>>,
    g2: Seq<Seq<bool>>,
    i: int,
    c: char,
)
    requires
        0 <= i < g1.len(),
        0 <= i < d1.trans.len(),
        0 <= i < d2.trans.len(),
        d1.trans[i] == d2.trans[i],
        g1.len() <= g2.len(),
        forall|j: int| 0 <= j < g1.len() ==> g1[j] == g2[j],
        subset_row(n, d1, g1, i, c),
    ensures
        subset_row(n, d2, g2, i, c),
{
    assert(g1[i] == g2[i]);
    if some_set(step_set(n, g1[i], c)) {
        let k = choose|k: int| 0 <= k < d1.trans[i].len() && (#[trigger] d1.trans[i][k]).0 == c;
        assert(d2.trans[i][k].0 == c);
        assert(d1.next(i, c) == d2.next(i, c));
        assert(g1[d1.next(i, c)->0] == g2[d1.next(i, c)->0]);
    } else {
        if d2.has_next(i, c) {
            let k = choose|k: int| 0 <= k < d2.trans[i].len() && (#[trigger] d2.trans[i][k]).0 == c;
            assert(d1.trans[i][k].0 == c);
        }
    }
}

/// Appending an edge on `c` to a row leaves the row's other characters as
/// they were, and gives `c` its target.
proof fn lemma_next_after_push(d1: DfaView, d2: DfaView, s: int, c: char, to: usize, c2: char)
    requires
        d2.wf(),
        0 <= s < d1.trans.len(),
        d2.trans.len() == d1.trans.len(),
        d2.trans[s] == d1.trans[s].push((c, to)),
    ensures
        c2 != c ==> (d2.has_next(s, c2) == d1.has_next(s, c2) && d2.next(s, c2) == d1.next(s, c2)),
        d2.has_next(s, c) && d2.next(s, c) == Some(to as int),
{
    let last = d1.trans[s].len() as int;
    assert(d2.trans[s][last] == (c, to));
    let k = choose|k: int| 0 <= k < d2.trans[s].len() && (#[trigger] d2.trans[s][k]).0 == c;
    assert(k == last);
    if c2 != c {
        if d1.has_next(s, c2) {
            let k1 = choose|k: int| 0 <= k < d1.trans[s].len() && (#[trigger] d1.trans[s][k]).0 == c2;
            assert(d2.trans[s][k1] == d1.trans[s][k1]);
            assert(d2.has_next(s, c2));
            let k2 = choose|k: int| 0 <= k < d2.trans[s].len() && (#[trigger] d2.trans[s][k]).0 == c2;
            assert(k1 == k2);
            assert(d2.next(s, c2) == Some(d2.trans[s][k2].1 as int));
            assert forall|k: int| 0 <= k < d1.trans[s].len() && (#[trigger] d1.trans[s][k]).0 == c2 implies k == k1 by {
                assert(d2.trans[s][k] == d1.trans[s][k]);
            }
            assert(d1.next(s, c2) == Some(d1.trans[s][k1].1 as int));
        }
        if d2.has_next(s, c2) {
            let k2 = choose|k: int| 0 <= k < d2.trans[s].len() && (#[trigger] d2.trans[s][k]).0 == c2;
            assert(k2 != last);
            assert(d1.trans[s][k2] == d2.trans[s][k2]);
            assert(d1.has_next(s, c2));
        }
    }
}

/// The index of the set in `sets` with the bits of `t`, if any.
fn find_set(sets: &Vec<StateSet>, t: &StateSet) -> (r: Option<usize>)
    ensures
        match r {
            Some(j) => j < sets@.len() && bits_of(sets@[j as int]) == bits_of(*t),
            None => forall|j: int| 0 <= j < sets@.len() ==> bits_of(#[trigger] sets@[j]) != bits_of(*t),
        },
{
    let mut j: usize = 0;
    while j < sets.len()
        invariant
            j <= sets@.len(),
            forall|k: int| 0 <= k < j ==> bits_of(#[trigger] sets@[k]) != bits_of(*t),
        decreases sets.len() - j,
    {
        if bits_eq(&sets[j], t) {
            return Some(j);
        }
        j = j + 1;
    }
    None
}

/// Whether `t` holds an accepting state of `nfa`.
fn meets_accept(nfa: &NFA, t: &StateSet) -> (r: bool)
    requires
        nfa@.wf(),
        bits_of(*t).len() == nfa@.num_states(),
    ensures
        r == meets(bits_of(*t), nfa@.accept),
{
    let common = bits_and(t, nfa.get_acceptor_states());
    let r = any_bit(&common);
    proof {
        if meets(bits_of(*t), nfa@.accept) {
            let i = choose|i: int| 0 <= i < bits_of(*t).len() && i < nfa@.accept.len() && #[trigger] bits_of(*t)[i] && nfa@.accept[i];
            assert(bits_of(common)[i]);
        }
        if some_set(bits_of(common)) {
            let i = choose|i: int| 0 <= i < bits_of(common).len() && #[trigger] bits_of(common)[i];
            assert(bits_of(*t)[i] && nfa@.accept[i]);
        }
    }
    r
}

/// The characters of `s` rise by code point.
pub open spec fn ascending(s: Seq<char>) -> bool {
    forall|i: int, j: int| 0 <= i < j < s.len() ==> code(#[trigger] s[i]) <= code(#[trigger] s[j])
}

fn contains_char(r: &Vec<char>, c: char) -> (b: bool)
    ensures
        b == r@.contains(c),
{
    let mut k: usize = 0;
    while k < r.len()
        invariant
            k <= r@.len(),
            forall|i: int| 0 <= i < k ==> r@[i] != c,
        decreases r.len() - k,
    {
        if r[k] == c {
            assert(r@[k as int] == c);
            return true;
        }
        k = k + 1;
    }
    false
}

/// The characters of `v`, each once, in ascending code-point order.
fn sorted_chars(v: &Vec<char>) -> (r: Vec<char>)
    ensures
        ascending(r@),
        r@.no_duplicates(),
        r@.to_set() == v@.to_set(),
{
    let mut r: Vec<char> = Vec::new();
    proof {
        v@.lemma_cardinality_of_set();
    }
    loop
        invariant
            ascending(r@),
            r@.no_duplicates(),
            forall|k: int| 0 <= k < r@.len() ==> v@.contains(#[trigger] r@[k]),
            forall|c: char|
                v@.contains(c) && !r@.contains(c) && r@.len() > 0 ==> code(r@.last()) <= #[trigger] code(c),
            v@.to_set().finite(),
            v@.to_set().len() <= v@.len(),
        decreases v@.len() - r@.len(),
    {
        // The least character of `v` not taken yet.
        let mut best: Option<char> = None;
        let mut j: usize = 0;
        while j < v.len()
            invariant
                j <= v@.len(),
                match best {
                    Some(b) => {
                        &&& v@.contains(b)
                        &&& !r@.contains(b)
                        &&& forall|k: int|
                            0 <= k < j && !r@.contains(v@[k]) ==> code(b) <= code(#[trigger] v@[k])
                    },
                    None => forall|k: int| 0 <= k < j ==> r@.contains(#[trigger] v@[k]),
                },
            decreases v.len() - j,
        {
            let c = v[j];
            assert(v@[j as int] == c);
            if !contains_char(&r, c) {
                match best {
                    None => {
                        best = Some(c);
                    },
                    Some(b) => {
                        if (c as u32) < (b as u32) {
                            best = Some(c);
                        }
                    },
                }
            }
            j = j + 1;
        }
        match best {
            None => {
                proof {
                    assert forall|c: char| v@.contains(c) implies r@.contains(c) by {
                        let k = choose|k: int| 0 <= k < v@.len() && v@[k] == c;
                    }
                    assert(r@.to_set() =~= v@.to_set());
                }
                return r;
            },
            Some(b) => {
                let ghost before = r@;
                proof {
                    before.push(b).unique_seq_to_set();
                    assert(before.push(b).no_duplicates()) by {
                        assert forall|x: int, y: int|
                            0 <= x < before.len() + 1 && 0 <= y < before.len() + 1 && x != y implies before.push(b)[x]
                            != before.push(b)[y] by {
                            if x == before.len() {
                                assert(before.push(b)[y] == before[y]);
                            } else if y == before.len() {
                                assert(before.push(b)[x] == before[x]);
                            }
                        }
                    }
                    before.push(b).unique_seq_to_set();
                    assert(before.push(b).to_set().subset_of(v@.to_set()));
                    lemma_len_subset(before.push(b).to_set(), v@.to_set());
                }
                r.push(b);
                proof {
                    assert(r@ == before.push(b));
                    assert forall|i: int, j: int| 0 <= i < j < r@.len() implies code(#[trigger] r@[i]) <= code(#[trigger] r@[j]) by {
                        if j == before.len() && i < j {
                            assert(code(before[i]) <= code(before.last()));
                        }
                    }
                    assert forall|c: char|
                        v@.contains(c) && !r@.contains(c) && r@.len() > 0 implies code(r@.last()) <= #[trigger] code(c) by {
                        let k = choose|k: int| 0 <= k < v@.len() && v@[k] == c;
                        assert(!before.contains(c)) by {
                            if before.contains(c) {
                                let k2 = choose|k2: int| 0 <= k2 < before.len() && before[k2] == c;
                                assert(r@[k2] == c);
                            }
                        }
                    }
                }
            },
        }
    }
}

/// Edge `a` comes before edge `b`, each given as (source state, position of
/// its character in the alphabet): by source, then by position.
pub open spec fn pair_before(a: (int, int), b: (int, int)) -> bool {
    a.0 < b.0 || (a.0 == b.0 && a.1 < b.1)
}

/// The states of `d` are numbered in the order that a first-in, first-out walk
/// finds them, reading states in turn and each state's characters in alphabet
/// order: `disc[k]` is the first edge that enters state `k`, it leaves a state
/// numbered below `k`, and these first edges come in the order of the states
/// they enter.
pub open spec fn numbered_by_discovery(d: DfaView, disc: Seq<(int, int)>) -> bool {
    &&& disc.len() == d.num_states()
    &&& forall|k: int|
        0 < k < d.num_states() ==> {
            &&& 0 <= (#[trigger] disc[k]).0 < k
            &&& 0 <= disc[k].1 < d.alphabet.len()
            &&& d.next(disc[k].0, d.alphabet[disc[k].1]) == Some(k)
        }
    &&& forall|k1: int, k2: int|
        0 < k1 < k2 < d.num_states() ==> pair_before(#[trigger] disc[k1], #[trigger] disc[k2])
    &&& forall|k: int, j: int, m: int|
        0 < k < d.num_states() && 0 <= j < d.num_states() && 0 <= m < d.alphabet.len()
            && #[trigger] d.next(j, d.alphabet[m]) == Some(k) ==> !pair_before((j, m), #[trigger] disc[k])
}

/// An edge of a well-formed DFA leads to one of its states.
proof fn lemma_next_target(d: DfaView, j: int, c: char)
    requires
        d.wf(),
        0 <= j < d.num_states(),
    ensures
        d.next(j, c) is Some ==> 0 <= d.next(j, c)->0 < d.num_states(),
{
    if d.has_next(j, c) {
        let k = d.edge_index(j, c);
        assert(d.trans[j][k].1 < d.num_states());
    }
}

/// Adding states with no edge and then the edge from `p` on `c` changes no
/// other edge.
proof fn lemma_edge_frame(d1: DfaView, d2: DfaView, r: DfaView, p: int, c: char, to: usize, j: int, c2: char)
    requires
        r.wf(),
        0 <= p < d1.num_states(),
        d1.num_states() <= d2.num_states(),
        forall|i: int| 0 <= i < d1.num_states() ==> #[trigger] d2.trans[i] == d1.trans[i],
        forall|i: int| d1.num_states() <= i < d2.num_states() ==> (#[trigger] d2.trans[i]).len() == 0,
        r.trans == d2.trans.update(p, d2.trans[p].push((c, to))),
        0 <= j < d2.num_states(),
        !(j == p && c2 == c),
    ensures
        j < d1.num_states() ==> r.next(j, c2) == d1.next(j, c2),
        j >= d1.num_states() ==> r.next(j, c2) is None,
{
    if j == p {
        lemma_next_after_push(d2, r, p, c, to, c2);
        assert(d2.trans[j] == d1.trans[j]);
    } else {
        assert(r.trans[j] == d2.trans[j]);
        if j < d1.num_states() {
            assert(d2.trans[j] == d1.trans[j]);
        } else if r.has_next(j, c2) {
            let k = r.edge_index(j, c2);
            assert(d2.trans[j].len() == 0);
        }
    }
}

/// The DFA of `nfa` by subset construction. Its alphabet is `nfa`'s in
/// ascending code-point order, read in that order; its states are numbered in
/// the order their sets of NFA states are found; state 0 is the start.
pub fn construct_dfa(nfa: NFA) -> (r: DFA)
    requires
        nfa@.wf(),
        nfa@.num_states() > 0,
    ensures
        exists|sets: Seq<Seq<bool>>| is_subset_dfa(nfa@, r@, sets),
        forall|w: Seq<char>| #[trigger] r@.accepts(w) == nfa_accepts(nfa@, w),
        forall|k: int| 0 < k < r@.num_states() ==> #[trigger] reached_from_below(r@, k),
        exists|disc: Seq<(int, int)>| numbered_by_discovery(r@, disc),
        r.regex_text() == nfa.regex_text(),
{
    let n = nfa.get_num_states();
    let alphabet = sorted_chars(nfa.get_alphabet());
    let regex = nfa.get_regex().clone();
    let mut result = DFA::new(alphabet, regex);
    let mut start = zeros(n);
    set_bit(&mut start, nfa.get_start_state(), true);
    assert(bits_of(start) =~= singleton(n as nat, nfa@.start));
    let q0 = get_epsilon_closure(&nfa, &start);
    let acc0 = meets_accept(&nfa, &q0);
    result.add_state(acc0);
    let ghost mut gs: Seq<Seq<bool>> = seq![bits_of(q0)];
    let mut sets: Vec<StateSet> = Vec::new();
    sets.push(q0);
    proof {
        vstd::arithmetic::power2::lemma_pow2_pos(n as nat);
    }
    let ghost mut disc: Seq<(int, int)> = seq![(0int, 0int)];
    let mut processed: usize = 0;
    while processed < sets.len()
        invariant
            nfa@.wf(),
            n == nfa@.num_states(),
            n > 0,
            result@.wf(),
            result@.alphabet.to_set() == nfa@.alphabet.to_set(),
            result@.alphabet.no_duplicates(),
            ascending(result@.alphabet),
            forall|k: int| 0 < k < result@.num_states() ==> #[trigger] reached_from_below(result@, k),
            numbered_by_discovery(result@, disc),
            forall|k: int| 0 < k < result@.num_states() ==> (#[trigger] disc[k]).0 < processed,
            result.regex_text() == nfa.regex_text(),
            result@.num_states() == sets@.len(),
            result@.start == 0,
            sets@.len() > 0,
            gs.len() == sets@.len(),
            forall|j: int| 0 <= j < gs.len() ==> #[trigger] gs[j] == bits_of(sets@[j]),
            gs.no_duplicates(),
            forall|j: int| 0 <= j < gs.len() ==> (#[trigger] gs[j]).len() == n,
            gs.len() <= pow2(n as nat),
            is_eps_closure(nfa@, singleton(n as nat, nfa@.start), gs[0]),
            forall|j: int| 0 <= j < gs.len() ==> result@.accept[j] == meets(#[trigger] gs[j], nfa@.accept),
            processed <= sets@.len(),
            forall|i: int, c: char|
                0 <= i < processed && nfa@.alphabet.contains(c) ==> #[trigger] subset_row(
                    nfa@,
                    result@,
                    gs,
                    i,
                    c,
                ),
            forall|i: int| processed <= i < result@.num_states() ==> (#[trigger] result@.trans[i]).len() == 0,
        decreases pow2(n as nat) - processed,
    {
        let na = result.get_alphabet().len();
        let mut ci: usize = 0;
        while ci < na
            invariant
                nfa@.wf(),
                n == nfa@.num_states(),
                n > 0,
                result@.wf(),
                result@.alphabet.to_set() == nfa@.alphabet.to_set(),
            result@.alphabet.no_duplicates(),
            ascending(result@.alphabet),
                forall|k: int| 0 < k < result@.num_states() ==> #[trigger] reached_from_below(result@, k),
                numbered_by_discovery(result@, disc),
                forall|k: int| 0 < k < result@.num_states() ==> pair_before(#[trigger] disc[k], (processed as int, ci as int)),
                result.regex_text() == nfa.regex_text(),
                result@.num_states() == sets@.len(),
                result@.start == 0,
                na == result@.alphabet.len(),
                ci <= na,
                gs.len() == sets@.len(),
                forall|j: int| 0 <= j < gs.len() ==> #[trigger] gs[j] == bits_of(sets@[j]),
                gs.no_duplicates(),
                forall|j: int| 0 <= j < gs.len() ==> (#[trigger] gs[j]).len() == n,
                gs.len() <= pow2(n as nat),
                is_eps_closure(nfa@, singleton(n as nat, nfa@.start), gs[0]),
                forall|j: int| 0 <= j < gs.len() ==> result@.accept[j] == meets(#[trigger] gs[j], nfa@.accept),
                processed < sets@.len(),
                forall|i: int, c: char|
                    0 <= i < processed && nfa@.alphabet.contains(c) ==> #[trigger] subset_row(
                        nfa@,
                        result@,
                        gs,
                        i,
                        c,
                    ),
                forall|k: int|
                    0 <= k < ci ==> #[trigger] subset_row(nfa@, result@, gs, processed as int, result@.alphabet[k]),
                forall|k: int|
                    0 <= k < result@.trans[processed as int].len() ==> result@.alphabet.subrange(0, ci as int).contains(
                        (#[trigger] result@.trans[processed as int][k]).0,
                    ),
                forall|i: int| processed < i < result@.num_states() ==> (#[trigger] result@.trans[i]).len() == 0,
            decreases na - ci,
        {
            let c = result.get_alphabet()[ci];
            let ghost d1 = result@;
            let ghost g1 = gs;
            assert(bits_of(sets@[processed as int]) == gs[processed as int]);
            assert(gs[processed as int].len() == n);
            let end_states = delta(&nfa, &sets[processed], c);
            if any_bit(&end_states) {
                let t = get_epsilon_closure(&nfa, &end_states);
                let ghost t2 = bits_of(t);
                let target = match find_set(&sets, &t) {
                    Some(j) => {
                        assert(gs[j as int] == bits_of(t));
                        assert(gs[j as int] == t2);
                        j
                    },
                    None => {
                        let acc = meets_accept(&nfa, &t);
                        let ghost tb = bits_of(t);
                        let d = result.add_state(acc);
                        sets.push(t);
                        proof {
                            disc = disc.push((processed as int, ci as int));
                        }
                        proof {
                            assert forall|j: int| 0 <= j < g1.len() implies g1[j] != tb by {
                                assert(g1[j] == bits_of(sets@[j]));
                            }
                            gs = gs.push(tb);
                            assert forall|j: int| 0 <= j < gs.len() implies #[trigger] gs[j] == bits_of(sets@[j]) by {}
                            assert(gs.no_duplicates()) by {
                                assert forall|a: int, b: int| 0 <= a < gs.len() && 0 <= b < gs.len() && a != b implies gs[a] != gs[b] by {
                                    if a < g1.len() && b < g1.len() {
                                        assert(g1[a] != g1[b]);
                                    }
                                }
                            }
                            lemma_distinct_sets_bound(gs, n as nat);
                            assert forall|i: int, c2: char|
                                0 <= i < processed && nfa@.alphabet.contains(c2) implies #[trigger] subset_row(
                                    nfa@,
                                    result@,
                                    gs,
                                    i,
                                    c2,
                                ) by {
                                assert(subset_row(nfa@, d1, g1, i, c2));
                                lemma_subset_row_frame(nfa@, d1, result@, g1, gs, i, c2);
                            }
                            assert forall|k: int| 0 <= k < ci implies #[trigger] subset_row(
                                nfa@,
                                result@,
                                gs,
                                processed as int,
                                result@.alphabet[k],
                            ) by {
                                assert(subset_row(nfa@, d1, g1, processed as int, result@.alphabet[k]));
                                lemma_subset_row_frame(nfa@, d1, result@, g1, gs, processed as int, result@.alphabet[k]);
                            }
                            assert(result@.trans[processed as int] == d1.trans[processed as int]);
                            assert(gs[d as int] == t2);
                        }
                        d
                    },
                };
                let ghost d2 = result@;
                assert(bits_of(end_states) == step_set(nfa@, gs[processed as int], c));
                assert(is_eps_closure(nfa@, step_set(nfa@, gs[processed as int], c), t2));
                assert(gs[target as int] == t2);
                assert(target < gs.len());
                assert(forall|k: int| 0 <= k < ci ==> #[trigger] subset_row(nfa@, d2, gs, processed as int, result@.alphabet[k]));
                assert(!d2.has_next(processed as int, c)) by {
                    if d2.has_next(processed as int, c) {
                        let k = choose|k: int|
                            0 <= k < d2.trans[processed as int].len() && (#[trigger] d2.trans[processed as int][k]).0 == c;
                        assert(result@.alphabet.subrange(0, ci as int).contains(c));
                        let m = choose|m: int| 0 <= m < ci && result@.alphabet.subrange(0, ci as int)[m] == c;
                        assert(result@.alphabet[m] == result@.alphabet[ci as int]);
                    }
                }
                result.add_transition(processed, c, target);
                proof {
                    assert forall|i: int, c2: char|
                        0 <= i < processed && nfa@.alphabet.contains(c2) implies #[trigger] subset_row(
                            nfa@,
                            result@,
                            gs,
                            i,
                            c2,
                        ) by {
                        lemma_subset_row_frame(nfa@, d2, result@, gs, gs, i, c2);
                    }
                    assert forall|k: int| 0 <= k < ci + 1 implies #[trigger] subset_row(
                        nfa@,
                        result@,
                        gs,
                        processed as int,
                        result@.alphabet[k],
                    ) by {
                        lemma_next_after_push(d2, result@, processed as int, c, target, result@.alphabet[k]);
                        if k < ci {
                            assert(result@.alphabet[k] != c);
                            assert(subset_row(nfa@, d2, gs, processed as int, result@.alphabet[k]));
                        } else {
                            assert(result@.alphabet[k] == c);
                            assert(some_set(step_set(nfa@, gs[processed as int], c)));
                            assert(is_eps_closure(nfa@, step_set(nfa@, gs[processed as int], c), gs[target as int]));
                        }
                    }
                    assert forall|k: int|
                        0 <= k < result@.trans[processed as int].len() implies result@.alphabet.subrange(
                        0,
                        ci + 1,
                    ).contains((#[trigger] result@.trans[processed as int][k]).0) by {
                        if k < d2.trans[processed as int].len() {
                            let x = d2.trans[processed as int][k].0;
                            assert(result@.alphabet.subrange(0, ci as int).contains(x));
                            let m = choose|m: int| 0 <= m < ci && result@.alphabet.subrange(0, ci as int)[m] == x;
                            assert(result@.alphabet.subrange(0, ci + 1)[m] == x);
                        } else {
                            assert(result@.alphabet.subrange(0, ci + 1)[ci as int] == c);
                        }
                    }
                    assert forall|i: int| processed < i < result@.num_states() implies (#[trigger] result@.trans[i]).len() == 0 by {
                        assert(result@.trans[i] == d2.trans[i]);
                    }
                    assert forall|k: int| 0 < k < result@.num_states() implies #[trigger] reached_from_below(result@, k) by {
                        if k >= d1.num_states() {
                            assert(k == target as int);
                            assert(result@.next(processed as int, c) == Some(k));
                        } else {
                            assert(reached_from_below(d1, k));
                            let (j, c2) = choose|j: int, c2: char| 0 <= j < k && #[trigger] d1.next(j, c2) == Some(k);
                            assert(d2.trans[j] == d1.trans[j]);
                            assert(d2.next(j, c2) == d1.next(j, c2));
                            if j == processed {
                                lemma_next_after_push(d2, result@, processed as int, c, target, c2);
                                assert(d1.has_next(j, c2));
                                assert(c2 != c);
                            } else {
                                assert(result@.trans[j] == d2.trans[j]);
                            }
                            assert(result@.next(j, c2) == Some(k));
                        }
                    }
                    assert(result@.alphabet[ci as int] == c);
                    assert forall|i: int| 0 <= i < d1.num_states() implies #[trigger] d2.trans[i] == d1.trans[i] by {}
                    assert forall|i: int| d1.num_states() <= i < d2.num_states() implies (#[trigger] d2.trans[i]).len() == 0 by {}
                    assert forall|k: int| 0 < k < result@.num_states() implies {
                        &&& 0 <= (#[trigger] disc[k]).0 < k
                        &&& 0 <= disc[k].1 < result@.alphabet.len()
                        &&& result@.next(disc[k].0, result@.alphabet[disc[k].1]) == Some(k)
                    } by {
                        if k >= d1.num_states() {
                            assert(k == target as int);
                            assert(disc[k] == (processed as int, ci as int));
                        } else {
                            assert(pair_before(disc[k], (processed as int, ci as int)));
                            let ck = result@.alphabet[disc[k].1];
                            if disc[k].0 == processed {
                                assert(ck != c);
                            }
                            lemma_edge_frame(d1, d2, result@, processed as int, c, target, disc[k].0, ck);
                        }
                    }
                    assert forall|k1: int, k2: int| 0 < k1 < k2 < result@.num_states() implies pair_before(#[trigger] disc[k1], #[trigger] disc[k2]) by {
                        if k2 >= d1.num_states() {
                            assert(pair_before(disc[k1], (processed as int, ci as int)));
                        }
                    }
                    assert forall|k: int, j: int, m: int|
                        0 < k < result@.num_states() && 0 <= j < result@.num_states() && 0 <= m < result@.alphabet.len()
                            && #[trigger] result@.next(j, result@.alphabet[m]) == Some(k) implies !pair_before((j, m), #[trigger] disc[k]) by {
                        if k < d1.num_states() {
                            assert(pair_before(disc[k], (processed as int, ci as int)));
                        }
                        if !(j == processed && m == ci) {
                            let cm = result@.alphabet[m];
                            if j == processed {
                                assert(cm != c);
                            }
                            lemma_edge_frame(d1, d2, result@, processed as int, c, target, j, cm);
                            lemma_next_target(d1, j, cm);
                        }
                    }
                    assert forall|k: int| 0 < k < result@.num_states() implies pair_before(#[trigger] disc[k], (processed as int, ci + 1)) by {
                        if k < d1.num_states() {
                            assert(pair_before(disc[k], (processed as int, ci as int)));
                        }
                    }
                }
            } else {
                proof {
                    assert(!d1.has_next(processed as int, c)) by {
                        if d1.has_next(processed as int, c) {
                            let k = choose|k: int|
                                0 <= k < d1.trans[processed as int].len() && (#[trigger] d1.trans[processed as int][k]).0 == c;
                            assert(result@.alphabet.subrange(0, ci as int).contains(c));
                            let m = choose|m: int| 0 <= m < ci && result@.alphabet.subrange(0, ci as int)[m] == c;
                            assert(result@.alphabet[m] == result@.alphabet[ci as int]);
                        }
                    }
                    assert(subset_row(nfa@, result@, gs, processed as int, c));
                    assert forall|k: int| 0 < k < result@.num_states() implies pair_before(#[trigger] disc[k], (processed as int, ci + 1)) by {
                        assert(pair_before(disc[k], (processed as int, ci as int)));
                    }
                    assert forall|k: int|
                        0 <= k < result@.trans[processed as int].len() implies result@.alphabet.subrange(
                        0,
                        ci + 1,
                    ).contains((#[trigger] result@.trans[processed as int][k]).0) by {
                        let x = result@.trans[processed as int][k].0;
                        assert(result@.alphabet.subrange(0, ci as int).contains(x));
                        let m = choose|m: int| 0 <= m < ci && result@.alphabet.subrange(0, ci as int)[m] == x;
                        assert(result@.alphabet.subrange(0, ci + 1)[m] == x);
                    }
                }
            }
            ci = ci + 1;
        }
        proof {
            assert forall|i: int, c: char|
                0 <= i < processed + 1 && nfa@.alphabet.contains(c) implies #[trigger] subset_row(
                    nfa@,
                    result@,
                    gs,
                    i,
                    c,
                ) by {
                if i == processed {
                    assert(nfa@.alphabet.to_set().contains(c));
                    assert(result@.alphabet.to_set().contains(c));
                    assert(result@.alphabet.contains(c));
                    let k = choose|k: int| 0 <= k < result@.alphabet.len() && result@.alphabet[k] == c;
                }
            }
        }
        proof {
            assert forall|k: int| 0 < k < result@.num_states() implies (#[trigger] disc[k]).0 < processed + 1 by {
                assert(pair_before(disc[k], (processed as int, na as int)));
            }
        }
        processed = processed + 1;
    }
    assert(is_subset_dfa(nfa@, result@, gs));
    proof {
        assert forall|w: Seq<char>| #[trigger] result@.accepts(w) == nfa_accepts(nfa@, w) by {
            lemma_subset_dfa_language(nfa@, result@, gs, w);
        }
    }
    result
}

// ---------------------------------------------------------------------------
// Minimization by partition refinement
// ---------------------------------------------------------------------------

/// A partition of the states `0..n` into blocks. Each state maps to the id of
/// its block; each id that was ever handed out is marked live while its block
/// holds a state, and an id stays with its block for the table's lifetime.
pub struct LookupTable {
    state_to_set: Vec<usize>,
    live_sets: Vec<bool>,
    num_sets: usize,
}

/// The number of set flags in `l`.
pub open spec fn live_count(l: Seq<bool>) -> nat
    decreases l.len(),
{
    if l.len() == 0 {
        0
    } else {
        live_count(l.drop_last()) + if l.last() {
            1nat
        } else {
            0nat
        }
    }
}

proof fn lemma_live_count_bound(l: Seq<bool>)
    ensures
        live_count(l) <= l.len(),
    decreases l.len(),
{
    if l.len() > 0 {
        lemma_live_count_bound(l.drop_last());
    }
}

proof fn lemma_live_count_clear(l: Seq<bool>, i: int)
    requires
        0 <= i < l.len(),
        l[i],
    ensures
        live_count(l.update(i, false)) + 1 == live_count(l),
    decreases l.len(),
{
    let u = l.update(i, false);
    if i == l.len() - 1 {
        assert(u.drop_last() =~= l.drop_last());
    } else {
        assert(u.drop_last() =~= l.drop_last().update(i, false));
        lemma_live_count_clear(l.drop_last(), i);
    }
}

impl LookupTable {
    pub closed spec fn blocks(&self) -> Seq<usize> {
        self.state_to_set@
    }

    /// Which block ids are in use.
    pub closed spec fn live(&self) -> Seq<bool> {
        self.live_sets@
    }

    /// The number of ids handed out so far.
    pub open spec fn ids(&self) -> nat {
        self.live().len()
    }

    /// The number of blocks.
    pub closed spec fn count(&self) -> nat {
        self.num_sets as nat
    }

    /// Every state lies in a live block, a block is live iff it holds a state,
    /// and `count` counts the live blocks.
    pub open spec fn wf(&self) -> bool {
        &&& forall|s: int|
            0 <= s < self.blocks().len() ==> #[trigger] self.blocks()[s] < self.ids() && self.live()[self.blocks()[s] as int]
        &&& forall|b: int| 0 <= b < self.ids() && #[trigger] self.live()[b] ==> has_member(self.blocks(), b)
        &&& self.count() == live_count(self.live())
    }

    /// The ids in use are exactly `0..count`, as during refinement, where a
    /// block is only ever split.
    pub open spec fn dense(&self) -> bool {
        &&& self.ids() == self.count()
        &&& forall|b: int| 0 <= b < self.ids() ==> #[trigger] self.live()[b]
        &&& forall|s: int| 0 <= s < self.blocks().len() ==> #[trigger] self.blocks()[s] < self.count()
        &&& forall|b: int| 0 <= b < self.count() ==> #[trigger] has_member(self.blocks(), b)
    }

    /// `n` states, each in block 0.
    pub fn new(n: usize) -> (r: LookupTable)
        requires
            n > 0,
        ensures
            r.wf(),
            r.dense(),
            r.blocks() == Seq::new(n as nat, |s: int| 0usize),
            r.count() == 1,
    {
        let mut v: Vec<usize> = Vec::new();
        let mut i: usize = 0;
        while i < n
            invariant
                i <= n,
                v@ == Seq::new(i as nat, |s: int| 0usize),
            decreases n - i,
        {
            v.push(0);
            i = i + 1;
            assert(v@ =~= Seq::new(i as nat, |s: int| 0usize));
        }
        let mut live: Vec<bool> = Vec::new();
        live.push(true);
        let r = LookupTable { state_to_set: v, live_sets: live, num_sets: 1 };
        assert(r.blocks()[0] == 0);
        assert(has_member(r.blocks(), 0));
        assert(r.live().drop_last() =~= Seq::<bool>::empty());
        assert(live_count(Seq::<bool>::empty()) == 0);
        assert(live_count(r.live()) == 1);
        r
    }

    /// Moves `state` into the block `set`: a live block, or the fresh id
    /// `ids()`. The state leaves its former block, and that block is deleted
    /// if this leaves it empty. No other state moves and no id changes.
    pub fn insert_state_in_set(&mut self, state: usize, set: usize)
        requires
            old(self).wf(),
            state < old(self).blocks().len(),
            set <= old(self).ids(),
            set < old(self).ids() ==> old(self).live()[set as int],
            set == old(self).ids() ==> old(self).ids() < usize::MAX,
        ensures
            final(self).wf(),
            final(self).blocks() == old(self).blocks().update(state as int, set),
            final(self).ids() == if set == old(self).ids() {
                old(self).ids() + 1
            } else {
                old(self).ids()
            },
            final(self).live()[set as int],
            forall|b: int|
                0 <= b < old(self).ids() && b != set && b != old(self).blocks()[state as int]
                    ==> #[trigger] final(self).live()[b] == old(self).live()[b],
            ({
                let p = old(self).blocks()[state as int];
                let deleted = p != set && !has_member(final(self).blocks(), p as int);
                &&& p != set ==> (final(self).live()[p as int] <==> has_member(final(self).blocks(), p as int))
                &&& final(self).count() + (if deleted { 1int } else { 0int }) == old(self).count() + (if set
                    == old(self).ids() {
                    1int
                } else {
                    0int
                })
            }),
    {
        let ghost h0 = self.state_to_set@;
        let ghost l0 = self.live_sets@;
        let prev = self.state_to_set[state];
        self.state_to_set.set(state, set);
        proof {
            lemma_live_count_bound(l0);
        }
        if set == self.live_sets.len() {
            self.live_sets.push(true);
            self.num_sets = self.num_sets + 1;
            assert(self.live_sets@.drop_last() =~= l0);
        }
        let ghost h1 = self.state_to_set@;
        let ghost l1 = self.live_sets@;
        assert(self.num_sets == live_count(l1));
        let n = self.state_to_set.len();
        let mut emptied = false;
        if prev != set {
            let mut t: usize = 0;
            let mut found = false;
            while t < n && !found
                invariant
                    n == h1.len(),
                    self.state_to_set@ == h1,
                    t <= n,
                    found ==> has_member(h1, prev as int),
                    !found ==> forall|u: int| 0 <= u < t ==> h1[u] != prev,
                decreases n - t + if found {
                    0int
                } else {
                    1int
                },
            {
                if self.state_to_set[t] == prev {
                    found = true;
                } else {
                    t = t + 1;
                }
            }
            if !found {
                assert(!has_member(h1, prev as int));
                assert(l1[prev as int]);
                proof {
                    lemma_live_count_clear(l1, prev as int);
                }
                self.live_sets.set(prev, false);
                self.num_sets = self.num_sets - 1;
                emptied = true;
            }
        }
        proof {
            let h2 = self.state_to_set@;
            let l2 = self.live_sets@;
            assert forall|s2: int| 0 <= s2 < h2.len() implies #[trigger] h2[s2] < self.ids() && l2[h2[s2] as int] by {
                if s2 != state {
                    assert(h2[s2] == h0[s2]);
                    if h0[s2] == prev {
                        assert(has_member(h1, prev as int));
                    }
                }
            }
            assert forall|b: int| 0 <= b < self.ids() && #[trigger] l2[b] implies has_member(h2, b) by {
                if b == set {
                    assert(h2[state as int] == set);
                } else if b != prev {
                    assert(l0[b]);
                    assert(has_member(h0, b));
                    let t = choose|t: int| 0 <= t < h0.len() && h0[t] == b;
                    assert(h2[t] == b);
                }
            }
        }
    }

    /// A copy of the partition.
    pub fn snapshot(&self) -> (r: LookupTable)
        ensures
            r.blocks() == self.blocks(),
            r.live() == self.live(),
            r.count() == self.count(),
    {
        let mut v: Vec<usize> = Vec::new();
        let mut i: usize = 0;
        while i < self.state_to_set.len()
            invariant
                i <= self.state_to_set@.len(),
                v@ == self.state_to_set@.subrange(0, i as int),
            decreases self.state_to_set.len() - i,
        {
            v.push(self.state_to_set[i]);
            i = i + 1;
        }
        assert(v@ =~= self.state_to_set@);
        let mut l: Vec<bool> = Vec::new();
        let mut i: usize = 0;
        while i < self.live_sets.len()
            invariant
                i <= self.live_sets@.len(),
                l@ == self.live_sets@.subrange(0, i as int),
            decreases self.live_sets.len() - i,
        {
            l.push(self.live_sets[i]);
            i = i + 1;
        }
        assert(l@ =~= self.live_sets@);
        LookupTable { state_to_set: v, live_sets: l, num_sets: self.num_sets }
    }

    pub fn get_set_of_state(&self, state: usize) -> (r: usize)
        requires
            state < self.blocks().len(),
        ensures
            r == self.blocks()[state as int],
    {
        self.state_to_set[state]
    }

    pub fn get_num_sets(&self) -> (r: usize)
        ensures
            r == self.count(),
    {
        self.num_sets
    }

    /// The id that the next fresh block gets.
    pub fn next_set_id(&self) -> (r: usize)
        ensures
            r == self.ids(),
    {
        self.live_sets.len()
    }

    pub fn get_num_states(&self) -> (r: usize)
        ensures
            r == self.blocks().len(),
    {
        self.state_to_set.len()
    }
}

/// `h` with block `from` renamed `to`.
pub open spec fn renumber(h: Seq<usize>, from: usize, to: usize) -> Seq<usize> {
    h.map_values(|b: usize| if b == from { to } else { b })
}

/// Some state lies in block `b`.
pub open spec fn has_member(h: Seq<usize>, b: int) -> bool {
    exists|s: int| 0 <= s < h.len() && h[s] == b
}

/// `m` is the least state of its block.
pub open spec fn is_first(h: Seq<usize>, m: int) -> bool {
    &&& 0 <= m < h.len()
    &&& forall|s: int| 0 <= s < m ==> #[trigger] h[s] != h[m]
}

/// States `s1` and `s2` of `d` have edges on the same characters, and these
/// lead into the same blocks of `h`.
pub open spec fn agree(d: DfaView, h: Seq<usize>, s1: int, s2: int) -> bool {
    forall|c: char|
        #[trigger] d.alphabet.contains(c) ==> {
            &&& d.has_next(s1, c) == d.has_next(s2, c)
            &&& d.has_next(s1, c) ==> h[d.next(s1, c)->0] == h[d.next(s2, c)->0]
        }
}

/// The blocks of `h` cannot be split further: each state agrees with the
/// least state of its block, and states of one block agree on acceptance.
pub open spec fn stable(d: DfaView, h: Seq<usize>) -> bool {
    &&& forall|s: int, m: int|
        0 <= s < h.len() && is_first(h, m) && h[s] == h[m] ==> #[trigger] agree(d, h, s, m)
            && d.accept[s] == d.accept[m]
}

/// `h` maps the states of `d` onto the states of `m` so that acceptance, the
/// start state and every edge carry over.
pub open spec fn is_quotient(d: DfaView, m: DfaView, h: Seq<usize>) -> bool {
    &&& h.len() == d.num_states()
    &&& forall|s: int| 0 <= s < h.len() ==> #[trigger] h[s] < m.num_states()
    &&& d.num_states() > 0 ==> m.start == h[d.start] as int
    &&& forall|s: int| 0 <= s < h.len() ==> m.accept[#[trigger] h[s] as int] == d.accept[s]
    &&& forall|s: int, c: char|
        0 <= s < h.len() ==> {
            &&& #[trigger] m.has_next(h[s] as int, c) == d.has_next(s, c)
            &&& d.has_next(s, c) ==> m.next(h[s] as int, c) == Some(h[d.next(s, c)->0] as int)
        }
}

/// A number of blocks that all have a state is at most the number of states.
proof fn lemma_blocks_bound(h: Seq<usize>, k: nat)
    requires
        forall|b: int| 0 <= b < k ==> #[trigger] has_member(h, b),
    ensures
        k <= h.len(),
{
    let dom = Set::new(|s: int| 0 <= s < h.len() && h[s] < k);
    let rng = set_int_range(0, k as int);
    let f = |s: int| h[s] as int;
    lemma_int_range(0, h.len() as int);
    assert(dom.subset_of(set_int_range(0, h.len() as int)));
    lemma_len_subset(dom, set_int_range(0, h.len() as int));
    assert(dom.map(f) =~= rng) by {
        assert forall|b: int| rng.contains(b) implies dom.map(f).contains(b) by {
            assert(has_member(h, b));
            let s = choose|s: int| 0 <= s < h.len() && h[s] == b;
            assert(dom.contains(s) && f(s) == b);
        }
    }
    lemma_map_size_bound(dom, rng, f);
    lemma_int_range(0, k as int);
}

/// Runs of `d` and of a quotient `m` of it accept the same words.
proof fn lemma_quotient_accepts_from(d: DfaView, m: DfaView, h: Seq<usize>, s: int, w: Seq<char>)
    requires
        d.wf(),
        m.wf(),
        is_quotient(d, m, h),
        0 <= s < d.num_states(),
    ensures
        d.accepts_from(s, w) == m.accepts_from(h[s] as int, w),
    decreases w.len(),
{
    if w.len() > 0 {
        assert(m.has_next(h[s] as int, w[0]) == d.has_next(s, w[0]));
        if d.has_next(s, w[0]) {
            let k = choose|k: int| 0 <= k < d.trans[s].len() && (#[trigger] d.trans[s][k]).0 == w[0];
            assert(d.trans[s][k].1 < d.num_states());
            let t = d.next(s, w[0])->0;
            lemma_quotient_accepts_from(d, m, h, t, w.drop_first());
            assert(m.next(h[s] as int, w[0]) == Some(h[t] as int));
        }
    } else {
        assert(m.accept[h[s] as int] == d.accept[s]);
    }
}

/// Minimization keeps the language: a quotient of a DFA accepts exactly the
/// words the DFA accepts.
pub proof fn lemma_quotient_same_language(d: DfaView, m: DfaView, h: Seq<usize>, w: Seq<char>)
    requires
        d.wf(),
        m.wf(),
        is_quotient(d, m, h),
        d.num_states() > 0,
    ensures
        d.accepts(w) == m.accepts(w),
{
    lemma_quotient_accepts_from(d, m, h, d.start, w);
    assert(h[d.start] < m.num_states());
}

/// Whether states `s` and `m` of `dfa` agree under the partition `table`.
fn states_agree(dfa: &DFA, table: &LookupTable, s: usize, m: usize) -> (r: bool)
    requires
        dfa@.wf(),
        table.wf(),
        table.blocks().len() == dfa@.num_states(),
        s < dfa@.num_states(),
        m < dfa@.num_states(),
    ensures
        r == agree(dfa@, table.blocks(), s as int, m as int),
{
    let alphabet = dfa.get_alphabet();
    let mut i: usize = 0;
    while i < alphabet.len()
        invariant
            dfa@.wf(),
            table.blocks().len() == dfa@.num_states(),
            s < dfa@.num_states(),
            m < dfa@.num_states(),
            alphabet@ == dfa@.alphabet,
            i <= alphabet@.len(),
            forall|k: int|
                0 <= k < i ==> {
                    &&& dfa@.has_next(s as int, #[trigger] alphabet@[k]) == dfa@.has_next(m as int, alphabet@[k])
                    &&& dfa@.has_next(s as int, alphabet@[k]) ==> table.blocks()[dfa@.next(
                        s as int,
                        alphabet@[k],
                    )->0] == table.blocks()[dfa@.next(m as int, alphabet@[k])->0]
                },
        decreases alphabet.len() - i,
    {
        let c = alphabet[i];
        let ts = dfa.get_transition(s, c);
        let tm = dfa.get_transition(m, c);
        match (ts, tm) {
            (None, None) => {},
            (Some(a), Some(b)) => {
                proof {
                    let k1 = choose|k: int| 0 <= k < dfa@.trans[s as int].len() && (#[trigger] dfa@.trans[s as int][k]).0 == c;
                    let k2 = choose|k: int| 0 <= k < dfa@.trans[m as int].len() && (#[trigger] dfa@.trans[m as int][k]).0 == c;
                    assert(dfa@.trans[s as int][k1].1 < dfa@.num_states());
                    assert(dfa@.trans[m as int][k2].1 < dfa@.num_states());
                }
                if table.get_set_of_state(a) != table.get_set_of_state(b) {
                    return false;
                }
            },
            _ => {
                return false;
            },
        }
        i = i + 1;
    }
    proof {
        assert forall|c: char| #[trigger] dfa@.alphabet.contains(c) implies {
            &&& dfa@.has_next(s as int, c) == dfa@.has_next(m as int, c)
            &&& dfa@.has_next(s as int, c) ==> table.blocks()[dfa@.next(s as int, c)->0] == table.blocks()[dfa@.next(m as int, c)->0]
        } by {
            let k = choose|k: int| 0 <= k < alphabet@.len() && alphabet@[k] == c;
        }
    }
    true
}

/// States in one block of `h` agree on acceptance.
pub open spec fn acc_consistent(d: DfaView, h: Seq<usize>) -> bool {
    forall|s1: int, s2: int|
        0 <= s1 < h.len() && 0 <= s2 < h.len() && #[trigger] h[s1] == #[trigger] h[s2] ==> d.accept[s1]
            == d.accept[s2]
}

/// The edges of `row` with each target replaced by its block.
pub open spec fn map_row(row: Seq<(char, usize)>, h: Seq<usize>) -> Seq<(char, usize)> {
    row.map_values(|e: (char, usize)| (e.0, h[e.1 as int]))
}

proof fn lemma_first_unique(h: Seq<usize>, m1: int, m2: int)
    requires
        is_first(h, m1),
        is_first(h, m2),
        h[m1] == h[m2],
    ensures
        m1 == m2,
{
    if m1 < m2 {
        assert(h[m1] != h[m2]);
    } else if m2 < m1 {
        assert(h[m2] != h[m1]);
    }
}

proof fn lemma_mapped_row(d: DfaView, m: DfaView, h: Seq<usize>, b: int, mb: int, c: char)
    requires
        d.wf(),
        0 <= mb < d.num_states(),
        0 <= b < m.num_states(),
        m.trans[b] == map_row(d.trans[mb], h),
    ensures
        m.has_next(b, c) == d.has_next(mb, c),
        d.has_next(mb, c) ==> m.next(b, c) == Some(h[d.next(mb, c)->0] as int),
{
    if d.has_next(mb, c) {
        let k = choose|k: int| 0 <= k < d.trans[mb].len() && (#[trigger] d.trans[mb][k]).0 == c;
        assert(m.trans[b][k].0 == c);
        let k2 = choose|k: int| 0 <= k < m.trans[b].len() && (#[trigger] m.trans[b][k]).0 == c;
        assert(d.trans[mb][k2].0 == c);
        assert(k == k2);
    }
    if m.has_next(b, c) {
        let k2 = choose|k: int| 0 <= k < m.trans[b].len() && (#[trigger] m.trans[b][k]).0 == c;
        assert(d.trans[mb][k2].0 == c);
    }
}

/// The least state of block `b`.
fn first_in_block(table: &LookupTable, b: usize) -> (m: usize)
    requires
        table.wf(),
        table.dense(),
        b < table.count(),
    ensures
        is_first(table.blocks(), m as int),
        table.blocks()[m as int] == b,
{
    let n = table.get_num_states();
    assert(has_member(table.blocks(), b as int));
    let mut m: usize = 0;
    while m < n
        invariant
            n == table.blocks().len(),
            m <= n,
            has_member(table.blocks(), b as int),
            forall|s: int| 0 <= s < m ==> #[trigger] table.blocks()[s] != b,
        decreases n - m,
    {
        if table.get_set_of_state(m) == b {
            return m;
        }
        m = m + 1;
    }
    proof {
        let s = choose|s: int| 0 <= s < table.blocks().len() && table.blocks()[s] == b;
        assert(table.blocks()[s] != b);
    }
    0
}

/// Runs of `d` from `s1` and from `s2` on `w` break off at the same character,
/// or both end, in states of the same acceptance.
pub open spec fn same_run(d: DfaView, s1: int, s2: int, w: Seq<char>) -> bool
    decreases w.len(),
{
    if w.len() == 0 {
        d.accept[s1] == d.accept[s2]
    } else {
        &&& d.has_next(s1, w[0]) == d.has_next(s2, w[0])
        &&& d.has_next(s1, w[0]) ==> same_run(
            d,
            d.next(s1, w[0])->0,
            d.next(s2, w[0])->0,
            w.drop_first(),
        )
    }
}

/// No word tells the states `s1` and `s2` of `d` apart.
pub open spec fn indistinguishable(d: DfaView, s1: int, s2: int) -> bool {
    forall|w: Seq<char>| #[trigger] same_run(d, s1, s2, w)
}

/// The partition `h` keeps indistinguishable states together.
pub open spec fn keeps_indistinguishable(d: DfaView, h: Seq<usize>) -> bool {
    forall|s1: int, s2: int|
        0 <= s1 < h.len() && 0 <= s2 < h.len() && #[trigger] indistinguishable(d, s1, s2) ==> #[trigger] h[s1]
            == #[trigger] h[s2]
}

/// States `b1` and `b2` of `m` agree on acceptance and on every edge.
pub open spec fn one_step_agree(m: DfaView, b1: int, b2: int) -> bool {
    &&& m.accept[b1] == m.accept[b2]
    &&& forall|c: char|
        {
            &&& #[trigger] m.has_next(b1, c) == m.has_next(b2, c)
            &&& m.has_next(b1, c) ==> m.next(b1, c) == m.next(b2, c)
        }
}

/// States of `d` whose blocks are equal, or are two states of the quotient
/// that agree in one step, cannot be told apart by any word.
proof fn lemma_related_same_run(
    d: DfaView,
    m: DfaView,
    h: Seq<usize>,
    b1: int,
    b2: int,
    x: int,
    y: int,
    w: Seq<char>,
)
    requires
        d.wf(),
        m.wf(),
        is_quotient(d, m, h),
        one_step_agree(m, b1, b2),
        0 <= x < d.num_states(),
        0 <= y < d.num_states(),
        h[x] == h[y] || (h[x] == b1 && h[y] == b2),
    ensures
        same_run(d, x, y, w),
    decreases w.len(),
{
    assert(m.accept[h[x] as int] == d.accept[x]);
    assert(m.accept[h[y] as int] == d.accept[y]);
    if w.len() > 0 {
        let c = w[0];
        assert(m.has_next(h[x] as int, c) == d.has_next(x, c));
        assert(m.has_next(h[y] as int, c) == d.has_next(y, c));
        assert(m.has_next(b1, c) == m.has_next(b2, c));
        if d.has_next(x, c) {
            let k1 = choose|k: int| 0 <= k < d.trans[x].len() && (#[trigger] d.trans[x][k]).0 == c;
            assert(d.trans[x][k1].1 < d.num_states());
            let k2 = choose|k: int| 0 <= k < d.trans[y].len() && (#[trigger] d.trans[y][k]).0 == c;
            assert(d.trans[y][k2].1 < d.num_states());
            let x2 = d.next(x, c)->0;
            let y2 = d.next(y, c)->0;
            assert(h[x2] == h[y2]);
            lemma_related_same_run(d, m, h, b1, b2, x2, y2, w.drop_first());
        }
    }
}

/// Indistinguishable states agree with any third state alike, under a
/// partition that keeps indistinguishable states together.
proof fn lemma_indistinguishable_agree(d: DfaView, h: Seq<usize>, s1: int, s2: int, m: int)
    requires
        d.wf(),
        h.len() == d.num_states(),
        keeps_indistinguishable(d, h),
        indistinguishable(d, s1, s2),
        0 <= s1 < d.num_states(),
        0 <= s2 < d.num_states(),
    ensures
        agree(d, h, s1, m) == agree(d, h, s2, m),
        d.accept[s1] == d.accept[s2],
{
    assert(same_run(d, s1, s2, Seq::empty()));
    assert forall|c: char| #[trigger] d.alphabet.contains(c) implies {
        &&& d.has_next(s1, c) == d.has_next(s2, c)
        &&& d.has_next(s1, c) ==> h[d.next(s1, c)->0] == h[d.next(s2, c)->0]
    } by {
        assert(same_run(d, s1, s2, seq![c]));
        if d.has_next(s1, c) {
            let t1 = d.next(s1, c)->0;
            let t2 = d.next(s2, c)->0;
            let k1 = choose|k: int| 0 <= k < d.trans[s1].len() && (#[trigger] d.trans[s1][k]).0 == c;
            assert(d.trans[s1][k1].1 < d.num_states());
            let k2 = choose|k: int| 0 <= k < d.trans[s2].len() && (#[trigger] d.trans[s2][k]).0 == c;
            assert(d.trans[s2][k2].1 < d.num_states());
            assert forall|w: Seq<char>| #[trigger] same_run(d, t1, t2, w) by {
                let cw = seq![c] + w;
                assert(same_run(d, s1, s2, cw));
                assert(cw[0] == c);
                assert(cw.drop_first() =~= w);
            }
            assert(indistinguishable(d, t1, t2));
        }
    }
}

/// Every state `b < k` is the block of some state.
pub open spec fn maps_onto(h: Seq<usize>, k: nat) -> bool {
    forall|b: int| 0 <= b < k ==> #[trigger] has_member(h, b)
}

/// `m` is what minimization makes of `d`: a quotient of `d` by a stable
/// partition that keeps indistinguishable states together.
pub open spec fn is_minimization(d: DfaView, m: DfaView) -> bool {
    &&& m.wf()
    &&& m.alphabet == d.alphabet
    &&& m.num_states() <= d.num_states()
    &&& d.num_states() == 0 ==> m.num_states() == 0
    &&& d.num_states() > 0 ==> exists|h: Seq<usize>|
        {
            &&& is_quotient(d, m, h)
            &&& #[trigger] stable(d, h)
            &&& keeps_indistinguishable(d, h)
            &&& maps_onto(h, m.num_states())
        }
}

proof fn lemma_quotient_same_run(d: DfaView, m: DfaView, h: Seq<usize>, s1: int, s2: int, w: Seq<char>)
    requires
        d.wf(),
        m.wf(),
        is_quotient(d, m, h),
        0 <= s1 < d.num_states(),
        0 <= s2 < d.num_states(),
    ensures
        same_run(d, s1, s2, w) == same_run(m, h[s1] as int, h[s2] as int, w),
    decreases w.len(),
{
    assert(m.accept[h[s1] as int] == d.accept[s1]);
    assert(m.accept[h[s2] as int] == d.accept[s2]);
    if w.len() > 0 {
        let c = w[0];
        assert(m.has_next(h[s1] as int, c) == d.has_next(s1, c));
        assert(m.has_next(h[s2] as int, c) == d.has_next(s2, c));
        if d.has_next(s1, c) && d.has_next(s2, c) {
            let k1 = choose|k: int| 0 <= k < d.trans[s1].len() && (#[trigger] d.trans[s1][k]).0 == c;
            assert(d.trans[s1][k1].1 < d.num_states());
            let k2 = choose|k: int| 0 <= k < d.trans[s2].len() && (#[trigger] d.trans[s2][k]).0 == c;
            assert(d.trans[s2][k2].1 < d.num_states());
            lemma_quotient_same_run(d, m, h, d.next(s1, c)->0, d.next(s2, c)->0, w.drop_first());
        }
    }
}

/// Minimizing a minimal DFA again keeps its number of states.
pub proof fn lemma_minimize_idempotent(d: DfaView, m: DfaView, m2: DfaView)
    requires
        d.wf(),
        is_minimization(d, m),
        is_minimization(m, m2),
    ensures
        m2.num_states() == m.num_states(),
{
    if d.num_states() > 0 && m.num_states() > 0 {
        let h = choose|h: Seq<usize>|
            {
                &&& is_quotient(d, m, h)
                &&& #[trigger] stable(d, h)
                &&& keeps_indistinguishable(d, h)
                &&& maps_onto(h, m.num_states())
            };
        let h2 = choose|h2: Seq<usize>|
            {
                &&& is_quotient(m, m2, h2)
                &&& #[trigger] stable(m, h2)
                &&& keeps_indistinguishable(m, h2)
                &&& maps_onto(h2, m2.num_states())
            };
        let dom = set_int_range(0, m.num_states() as int);
        let f = |x: int| h2[x] as int;
        assert forall|x: int, y: int| dom.contains(x) && dom.contains(y) && #[trigger] f(x) == #[trigger] f(y) implies x == y by {
            let b = h2[x] as int;
            assert(one_step_agree(m2, b, b));
            assert forall|w: Seq<char>| #[trigger] same_run(m, x, y, w) by {
                lemma_related_same_run(m, m2, h2, b, b, x, y, w);
            }
            assert(has_member(h, x));
            assert(has_member(h, y));
            let rx = choose|s: int| 0 <= s < h.len() && h[s] == x;
            let ry = choose|s: int| 0 <= s < h.len() && h[s] == y;
            assert forall|w: Seq<char>| #[trigger] same_run(d, rx, ry, w) by {
                lemma_quotient_same_run(d, m, h, rx, ry, w);
            }
            assert(indistinguishable(d, rx, ry));
            assert(h[rx] == h[ry]);
        }
        lemma_int_range(0, m.num_states() as int);
        lemma_int_range(0, m2.num_states() as int);
        vstd::set_lib::lemma_map_size(dom, dom.map(f), f);
        assert(dom.map(f).subset_of(set_int_range(0, m2.num_states() as int)));
        lemma_len_subset(dom.map(f), set_int_range(0, m2.num_states() as int));
    } else if d.num_states() > 0 {
        let h = choose|h: Seq<usize>|
            {
                &&& is_quotient(d, m, h)
                &&& #[trigger] stable(d, h)
                &&& keeps_indistinguishable(d, h)
                &&& maps_onto(h, m.num_states())
            };
        assert(h[0] < m.num_states());
    }
}

/// The minimal DFA of `dfa`: its states are the blocks of the coarsest
/// partition that partition refinement reaches from the split into accepting
/// and non-accepting states.
pub fn construct_minimal_dfa(dfa: &DFA) -> (r: DFA)
    requires
        dfa@.wf(),
    ensures
        r.regex_text() == dfa.regex_text(),
        is_minimization(dfa@, r@),
        forall|w: Seq<char>| #[trigger] r@.accepts(w) == dfa@.accepts(w),
        forall|b1: int, b2: int|
            0 <= b1 < r@.num_states() && 0 <= b2 < r@.num_states() && b1 != b2 ==> !#[trigger] one_step_agree(
                r@,
                b1,
                b2,
            ),
{
    let n = dfa.get_num_states();
    let src_alphabet = dfa.get_alphabet();
    let mut alphabet: Vec<char> = Vec::new();
    let mut i: usize = 0;
    while i < src_alphabet.len()
        invariant
            i <= src_alphabet@.len(),
            alphabet@ == src_alphabet@.subrange(0, i as int),
        decreases src_alphabet.len() - i,
    {
        alphabet.push(src_alphabet[i]);
        i = i + 1;
    }
    assert(alphabet@ =~= dfa@.alphabet);
    let regex = dfa.get_regex().clone();
    let mut result = DFA::new(alphabet, regex);
    if n == 0 {
        return result;
    }
    // The first split: accepting states form block 0, the others block 1;
    // with no accepting state, every state is in block 0.
    let mut w0: usize = 0;
    let mut acc0 = false;
    let mut i: usize = 0;
    while i < n
        invariant
            dfa@.wf(),
            n == dfa@.num_states(),
            i <= n,
            w0 < n,
            acc0 ==> dfa@.accept[w0 as int],
            !acc0 ==> forall|s: int| 0 <= s < i ==> !#[trigger] dfa@.accept[s],
        decreases n - i,
    {
        if !acc0 && dfa.is_accept_state(i) {
            acc0 = true;
            w0 = i;
        }
        i = i + 1;
    }
    assert(dfa@.accept[w0 as int] == acc0);
    let mut table = LookupTable::new(n);
    let mut i: usize = 0;
    while i < n
        invariant
            dfa@.wf(),
            n == dfa@.num_states(),
            w0 < n,
            dfa@.accept[w0 as int] == acc0,
            i <= n,
            table.wf(),
            table.dense(),
            table.blocks().len() == n,
            1 <= table.count() <= 2,
            forall|s: int|
                0 <= s < n ==> #[trigger] table.blocks()[s] == if s < i && dfa@.accept[s] != acc0 {
                    1usize
                } else {
                    0usize
                },
        decreases n - i,
    {
        if dfa.is_accept_state(i) != acc0 {
            let target: usize = 1;
            assert(table.blocks().update(i as int, target)[w0 as int] == 0);
            assert(has_member(table.blocks().update(i as int, target), 0));
            table.insert_state_in_set(i, target);
            assert(has_member(table.blocks(), 0));
            assert(table.dense());
            proof {
                assert(table.blocks()[i as int] == 1);
                assert(table.blocks()[w0 as int] == 0);
                assert forall|b: int| 0 <= b < table.count() implies #[trigger] has_member(table.blocks(), b) by {
                    if b == 0 {
                        assert(table.blocks()[w0 as int] == 0);
                    } else {
                        assert(table.blocks()[i as int] == 1);
                    }
                }
            }
        }
        i = i + 1;
    }
    assert(acc_consistent(dfa@, table.blocks()));
    proof {
        lemma_blocks_bound(table.blocks(), table.count());
    }
    proof {
        assert forall|s1: int, s2: int|
            0 <= s1 < n && 0 <= s2 < n && #[trigger] indistinguishable(dfa@, s1, s2) implies #[trigger] table.blocks()[s1]
                == #[trigger] table.blocks()[s2] by {
            assert(same_run(dfa@, s1, s2, Seq::empty()));
        }
    }
    let mut changed = true;
    while changed
        invariant
            dfa@.wf(),
            n == dfa@.num_states(),
            n > 0,
            table.wf(),
            table.dense(),
            table.blocks().len() == n,
            1 <= table.count() <= n,
            acc_consistent(dfa@, table.blocks()),
            keeps_indistinguishable(dfa@, table.blocks()),
            !changed ==> stable(dfa@, table.blocks()),
        decreases (n - table.count()) + if changed {
            1int
        } else {
            0int
        },
    {
        let snapshot = table.snapshot();
        let ghost h0 = table.blocks();
        let k0 = table.get_num_sets();
        let mut split = false;
        let mut b: usize = 0;
        while b < k0
            invariant
                dfa@.wf(),
                n == dfa@.num_states(),
                n > 0,
                table.wf(),
                table.dense(),
                table.blocks().len() == n,
                k0 <= table.count() <= n,
                b <= k0,
                h0.len() == n,
                snapshot.blocks() == h0,
                snapshot.count() == k0,
                snapshot.wf(),
                snapshot.dense(),
                forall|s: int| 0 <= s < n ==> #[trigger] h0[s] < k0,
                acc_consistent(dfa@, table.blocks()),
                keeps_indistinguishable(dfa@, h0),
                keeps_indistinguishable(dfa@, table.blocks()),
                forall|t: int| 0 <= t < n && h0[t] >= b ==> #[trigger] table.blocks()[t] == h0[t],
                forall|t: int| 0 <= t < n ==> #[trigger] table.blocks()[t] == h0[t] || table.blocks()[t] >= k0,
                !split ==> table.blocks() == h0 && table.count() == k0,
                split ==> table.count() > k0,
                !split ==> forall|s: int, m: int|
                    0 <= s < n && is_first(h0, m) && h0[s] == h0[m] && h0[s] < b ==> #[trigger] agree(
                        dfa@,
                        h0,
                        s,
                        m,
                    ),
            decreases k0 - b,
        {
            let m = first_in_block(&table, b);
            proof {
                assert forall|s2: int| 0 <= s2 < m implies #[trigger] h0[s2] != h0[m as int] by {
                    if h0[s2] == b {
                        assert(table.blocks()[s2] == h0[s2]);
                    }
                }
                assert(h0[m as int] == b) by {
                    if h0[m as int] != b {
                        assert(table.blocks()[m as int] == h0[m as int] || table.blocks()[m as int] >= k0);
                    }
                }
            }
            let fresh = table.get_num_sets();
            let ghost hb = table.blocks();
            let mut moved = false;
            let mut s: usize = m + 1;
            while s < n
                invariant
                    dfa@.wf(),
                    n == dfa@.num_states(),
                    table.wf(),
                    table.dense(),
                    table.blocks().len() == n,
                    hb.len() == n,
                    h0.len() == n,
                    m < s <= n,
                    b < k0,
                    k0 <= fresh,
                    snapshot.blocks() == h0,
                    snapshot.count() == k0,
                    snapshot.wf(),
                    snapshot.dense(),
                    is_first(h0, m as int),
                    h0[m as int] == b,
                    hb[m as int] == b,
                    forall|t: int| 0 <= t < n ==> (#[trigger] hb[t] == b <==> h0[t] == b),
                    forall|t: int| 0 <= t < n ==> #[trigger] hb[t] < fresh,
                    table.count() <= n,
                    acc_consistent(dfa@, table.blocks()),
                    forall|t: int|
                        0 <= t < n ==> #[trigger] table.blocks()[t] == if m < t < s && h0[t] == b && !agree(
                            dfa@,
                            h0,
                            t,
                            m as int,
                        ) {
                            fresh
                        } else {
                            hb[t]
                        },
                    forall|b2: int| 0 <= b2 < fresh ==> #[trigger] has_member(hb, b2),
                    !moved ==> table.count() == fresh,
                    moved ==> table.count() == fresh + 1,
                    moved ==> split,
                    forall|s2: int| 0 <= s2 < n && #[trigger] table.blocks()[s2] == fresh ==> dfa@.accept[s2] == dfa@.accept[m as int],
                    !split ==> hb == h0 && fresh == k0,
                    split ==> fresh > k0 || moved,
                    !moved && !split ==> forall|s2: int|
                        m < s2 < s && h0[s2] == b ==> #[trigger] agree(dfa@, h0, s2, m as int),
                decreases n - s,
            {
                if snapshot.get_set_of_state(s) == b && !states_agree(dfa, &snapshot, s, m) {
                    proof {
                        let h2 = table.blocks().update(s as int, fresh);
                        assert forall|b2: int| 0 <= b2 < fresh + 1 implies #[trigger] has_member(h2, b2) by {
                            if b2 == fresh {
                                assert(h2[s as int] == fresh);
                            } else if b2 == b {
                                assert(h2[m as int] == b);
                            } else {
                                assert(has_member(hb, b2));
                                let s3 = choose|s3: int| 0 <= s3 < hb.len() && hb[s3] == b2;
                                assert(table.blocks()[s3] == b2);
                                assert(h2[s3] == b2);
                            }
                        }
                        lemma_blocks_bound(h2, (fresh + 1) as nat);
                        assert(acc_consistent(dfa@, table.blocks()));
                        assert(table.blocks()[s as int] == b);
                        assert(table.blocks()[m as int] == b);
                        assert(dfa@.accept[s as int] == dfa@.accept[m as int]);
                    }
                    assert(table.blocks().update(s as int, fresh)[m as int] == b);
                    assert(has_member(table.blocks().update(s as int, fresh), b as int));
                    table.insert_state_in_set(s, fresh);
                    assert(has_member(table.blocks(), b as int));
                    proof {
                        assert forall|b2: int| 0 <= b2 < table.count() implies #[trigger] has_member(table.blocks(), b2) by {
                            if b2 == fresh {
                                assert(table.blocks()[s as int] == fresh);
                            } else if b2 == b {
                                assert(table.blocks()[m as int] == b);
                            } else {
                                assert(has_member(hb, b2));
                                let s3 = choose|s3: int| 0 <= s3 < hb.len() && hb[s3] == b2;
                                assert(table.blocks()[s3] == b2);
                            }
                        }
                        assert forall|s1: int, s2: int|
                            0 <= s1 < n && 0 <= s2 < n && #[trigger] table.blocks()[s1] == #[trigger] table.blocks()[s2] implies dfa@.accept[s1]
                                == dfa@.accept[s2] by {
                            if table.blocks()[s1] == fresh {
                                assert(dfa@.accept[s1] == dfa@.accept[m as int]);
                                assert(dfa@.accept[s2] == dfa@.accept[m as int]);
                            }
                        }
                    }
                    moved = true;
                    split = true;
                }
                s = s + 1;
            }
            proof {
                assert forall|s1: int, s2: int|
                    0 <= s1 < n && 0 <= s2 < n && #[trigger] indistinguishable(dfa@, s1, s2) implies #[trigger] table.blocks()[s1]
                        == #[trigger] table.blocks()[s2] by {
                    assert(h0[s1] == h0[s2]);
                    lemma_indistinguishable_agree(dfa@, h0, s1, s2, m as int);
                    assert(agree(dfa@, h0, m as int, m as int));
                    if h0[s1] == b {
                        assert(s1 >= m) by {
                            if s1 < m {
                                assert(h0[s1] != h0[m as int]);
                            }
                        }
                        assert(s2 >= m) by {
                            if s2 < m {
                                assert(h0[s2] != h0[m as int]);
                            }
                        }
                    } else {
                        assert(hb[s1] == hb[s2]);
                    }
                }
                assert forall|t: int| 0 <= t < n && h0[t] >= b + 1 implies #[trigger] table.blocks()[t] == h0[t] by {}
                assert forall|t: int| 0 <= t < n implies #[trigger] table.blocks()[t] == h0[t] || table.blocks()[t] >= k0 by {
                    if table.blocks()[t] != fresh {
                        assert(table.blocks()[t] == hb[t]);
                    }
                }
                if !split {
                    assert forall|s2: int, m2: int|
                        0 <= s2 < n && is_first(h0, m2) && h0[s2] == h0[m2] && h0[s2] < b + 1 implies #[trigger] agree(
                            dfa@,
                            h0,
                            s2,
                            m2,
                        ) by {
                        if h0[s2] == b {
                            lemma_first_unique(h0, m2, m as int);
                            if s2 < m {
                                assert(h0[s2] != h0[m as int]);
                            }
                        }
                    }
                }
            }
            b = b + 1;
        }
        proof {
            if !split {
                assert forall|s: int, m: int|
                    0 <= s < n && is_first(h0, m) && h0[s] == h0[m] implies #[trigger] agree(dfa@, h0, s, m)
                        && dfa@.accept[s] == dfa@.accept[m] by {
                    assert(h0[s] < table.count());
                }
            }
        }
        changed = split;
    }
    // One state per block, with the edges of the block's least state.
    let k = table.get_num_sets();
    let ghost h = table.blocks();
    let mut reps: Vec<usize> = Vec::new();
    let mut b: usize = 0;
    while b < k
        invariant
            dfa@.wf(),
            n == dfa@.num_states(),
            table.wf(),
            table.dense(),
            table.blocks() == h,
            h.len() == n,
            k == table.count(),
            k <= n,
            b <= k,
            result@.wf(),
            result@.alphabet == dfa@.alphabet,
            result.regex_text() == dfa.regex_text(),
            result@.num_states() == b,
            reps@.len() == b,
            forall|b2: int| 0 <= b2 < b ==> #[trigger] result@.trans[b2].len() == 0,
            forall|b2: int|
                0 <= b2 < b ==> is_first(h, #[trigger] reps@[b2] as int) && h[reps@[b2] as int] == b2
                    && result@.accept[b2] == dfa@.accept[reps@[b2] as int],
        decreases k - b,
    {
        let m = first_in_block(&table, b);
        reps.push(m);
        result.add_state(dfa.is_accept_state(m));
        b = b + 1;
    }
    let mut b: usize = 0;
    while b < k
        invariant
            dfa@.wf(),
            n == dfa@.num_states(),
            table.wf(),
            table.dense(),
            table.blocks() == h,
            h.len() == n,
            k == table.count(),
            k <= n,
            b <= k,
            result@.wf(),
            result@.alphabet == dfa@.alphabet,
            result.regex_text() == dfa.regex_text(),
            result@.num_states() == k,
            reps@.len() == k,
            forall|b2: int| b <= b2 < k ==> #[trigger] result@.trans[b2].len() == 0,
            forall|b2: int| 0 <= b2 < b ==> #[trigger] result@.trans[b2] == map_row(dfa@.trans[reps@[b2] as int], h),
            forall|b2: int|
                0 <= b2 < k ==> is_first(h, #[trigger] reps@[b2] as int) && h[reps@[b2] as int] == b2
                    && result@.accept[b2] == dfa@.accept[reps@[b2] as int],
        decreases k - b,
    {
        let m = reps[b];
        assert(is_first(h, reps@[b as int] as int));
        let edges = dfa.get_transitions(m);
        let mut j: usize = 0;
        while j < edges.len()
            invariant
                dfa@.wf(),
                n == dfa@.num_states(),
                table.wf(),
                table.dense(),
                table.blocks() == h,
                h.len() == n,
                k == table.count(),
                b < k,
                m < n,
                edges@ == dfa@.trans[m as int],
                j <= edges@.len(),
                result@.wf(),
                result@.alphabet == dfa@.alphabet,
                result.regex_text() == dfa.regex_text(),
                result@.num_states() == k,
                reps@.len() == k,
                reps@[b as int] == m,
                result@.trans[b as int] == map_row(edges@.subrange(0, j as int), h),
                forall|b2: int| b < b2 < k ==> #[trigger] result@.trans[b2].len() == 0,
                forall|b2: int| 0 <= b2 < b ==> #[trigger] result@.trans[b2] == map_row(dfa@.trans[reps@[b2] as int], h),
                forall|b2: int|
                    0 <= b2 < k ==> is_first(h, #[trigger] reps@[b2] as int) && h[reps@[b2] as int] == b2
                        && result@.accept[b2] == dfa@.accept[reps@[b2] as int],
            decreases edges.len() - j,
        {
            let (c, t) = edges[j];
            assert(dfa@.trans[m as int][j as int] == (c, t));
            let tb = table.get_set_of_state(t);
            let ghost d1 = result@;
            assert(!d1.has_next(b as int, c)) by {
                if d1.has_next(b as int, c) {
                    let k1 = choose|k1: int| 0 <= k1 < d1.trans[b as int].len() && (#[trigger] d1.trans[b as int][k1]).0 == c;
                    assert(edges@[k1].0 == c);
                    assert(dfa@.trans[m as int][k1].0 == dfa@.trans[m as int][j as int].0);
                }
            }
            result.add_transition(b, c, tb);
            proof {
                assert(result@.trans[b as int] =~= map_row(edges@.subrange(0, j + 1), h));
                assert forall|b2: int| b < b2 < k implies #[trigger] result@.trans[b2].len() == 0 by {
                    assert(result@.trans[b2] == d1.trans[b2]);
                }
                assert forall|b2: int| 0 <= b2 < b implies #[trigger] result@.trans[b2] == map_row(dfa@.trans[reps@[b2] as int], h) by {
                    assert(result@.trans[b2] == d1.trans[b2]);
                }
            }
            j = j + 1;
        }
        assert(edges@.subrange(0, edges@.len() as int) =~= edges@);
        b = b + 1;
    }
    let start_block = table.get_set_of_state(dfa.get_start_state());
    result.set_start_state(start_block);
    proof {
        assert(stable(dfa@, h));
        assert forall|s: int| 0 <= s < h.len() implies #[trigger] h[s] < result@.num_states() by {}
        assert forall|s: int| 0 <= s < h.len() implies result@.accept[#[trigger] h[s] as int] == dfa@.accept[s] by {
            let b2 = h[s] as int;
            let m2 = reps@[b2] as int;
            assert(agree(dfa@, h, s, m2) && dfa@.accept[s] == dfa@.accept[m2]);
        }
        assert forall|s: int, c: char| 0 <= s < h.len() implies {
            &&& #[trigger] result@.has_next(h[s] as int, c) == dfa@.has_next(s, c)
            &&& dfa@.has_next(s, c) ==> result@.next(h[s] as int, c) == Some(h[dfa@.next(s, c)->0] as int)
        } by {
            let b2 = h[s] as int;
            let m2 = reps@[b2] as int;
            assert(agree(dfa@, h, s, m2));
            assert(result@.trans[b2] == map_row(dfa@.trans[m2], h));
            lemma_mapped_row(dfa@, result@, h, b2, m2, c);
            if !dfa@.alphabet.contains(c) {
                if dfa@.has_next(s, c) {
                    let k1 = choose|k1: int| 0 <= k1 < dfa@.trans[s].len() && (#[trigger] dfa@.trans[s][k1]).0 == c;
                }
                if dfa@.has_next(m2, c) {
                    let k1 = choose|k1: int| 0 <= k1 < dfa@.trans[m2].len() && (#[trigger] dfa@.trans[m2][k1]).0 == c;
                }
            }
        }
        assert(is_quotient(dfa@, result@, h));
        assert forall|b2: int| 0 <= b2 < result@.num_states() implies #[trigger] has_member(h, b2) by {
            assert(h[reps@[b2] as int] == b2);
        }
        assert(maps_onto(h, result@.num_states()));
        assert forall|w: Seq<char>| #[trigger] result@.accepts(w) == dfa@.accepts(w) by {
            lemma_quotient_same_language(dfa@, result@, h, w);
        }
        assert forall|b1: int, b2: int|
            0 <= b1 < result@.num_states() && 0 <= b2 < result@.num_states() && b1 != b2 implies !#[trigger] one_step_agree(
                result@,
                b1,
                b2,
            ) by {
            if one_step_agree(result@, b1, b2) {
                let x = reps@[b1] as int;
                let y = reps@[b2] as int;
                assert(is_first(h, x) && h[x] == b1);
                assert(is_first(h, y) && h[y] == b2);
                assert forall|w: Seq<char>| #[trigger] same_run(dfa@, x, y, w) by {
                    lemma_related_same_run(dfa@, result@, h, b1, b2, x, y, w);
                }
                assert(indistinguishable(dfa@, x, y));
                assert(h[x] == h[y]);
            }
        }
    }
    result
}

// ---------------------------------------------------------------------------
// The language of an NFA, by simulation on sets of states
// ---------------------------------------------------------------------------

/// The ε-closure of `q` (see `is_eps_closure`).
pub open spec fn closure_of(n: NfaView, q: Seq<bool>) -> Seq<bool> {
    choose|r: Seq<bool>| is_eps_closure(n, q, r)
}

/// The states that `n` can be in after reading `w` from the states `q`.
pub open spec fn nfa_run(n: NfaView, q: Seq<bool>, w: Seq<char>) -> Seq<bool>
    decreases w.len(),
{
    if w.len() == 0 {
        q
    } else {
        nfa_run(n, closure_of(n, step_set(n, q, w[0])), w.drop_first())
    }
}

/// `n` accepts `w`: some state it can reach on `w` is accepting.
pub open spec fn nfa_accepts(n: NfaView, w: Seq<char>) -> bool {
    meets(nfa_run(n, closure_of(n, singleton(n.num_states(), n.start)), w), n.accept)
}

/// The set with no state, among `len` states.
pub open spec fn no_states(len: nat) -> Seq<bool> {
    Seq::new(len, |i: int| false)
}

proof fn lemma_closure_unique(n: NfaView, q: Seq<bool>, r: Seq<bool>)
    requires
        is_eps_closure(n, q, r),
    ensures
        closure_of(n, q) == r,
{
    let r2 = closure_of(n, q);
    assert(is_eps_closure(n, q, r2));
    assert(subset(r, r2));
    assert(subset(r2, r));
    assert(r =~= r2);
}

proof fn lemma_empty_run(n: NfaView, w: Seq<char>)
    ensures
        nfa_run(n, no_states(n.num_states()), w) == no_states(n.num_states()),
        !meets(no_states(n.num_states()), n.accept),
    decreases w.len(),
{
    let e = no_states(n.num_states());
    if w.len() > 0 {
        assert(step_set(n, e, w[0]) =~= e);
        assert(is_eps_closure(n, e, e));
        lemma_closure_unique(n, e, e);
        lemma_empty_run(n, w.drop_first());
    }
}

proof fn lemma_subset_dfa_accepts_from(n: NfaView, d: DfaView, sets: Seq<Seq<bool>>, i: int, w: Seq<char>)
    requires
        n.wf(),
        is_subset_dfa(n, d, sets),
        0 <= i < d.num_states(),
    ensures
        d.accepts_from(i, w) == meets(nfa_run(n, sets[i], w), n.accept),
    decreases w.len(),
{
    if w.len() > 0 {
        let c = w[0];
        let st = step_set(n, sets[i], c);
        if n.alphabet.contains(c) {
            assert(subset_row(n, d, sets, i, c));
        }
        if n.alphabet.contains(c) && some_set(st) {
            let j = d.next(i, c)->0;
            lemma_closure_unique(n, st, sets[j]);
            lemma_subset_dfa_accepts_from(n, d, sets, j, w.drop_first());
        } else {
            assert(st =~= no_states(n.num_states())) by {
                assert forall|t: int| 0 <= t < st.len() implies !st[t] by {
                    if st[t] {
                        let p = choose|p: int| 0 <= p < sets[i].len() && sets[i][p] && #[trigger] n.edge(p, Symbol::Char(c), t);
                        let k = choose|k: int| 0 <= k < n.trans[p].len() && (#[trigger] n.trans[p][k]).0 == Symbol::Char(c) && n.trans[p][k].1 as int == t;
                        assert(n.alphabet.contains(c));
                        assert(some_set(st));
                    }
                }
            }
            assert(is_eps_closure(n, st, st));
            lemma_closure_unique(n, st, st);
            lemma_empty_run(n, w.drop_first());
            if d.has_next(i, c) {
                let k = choose|k: int| 0 <= k < d.trans[i].len() && (#[trigger] d.trans[i][k]).0 == c;
                assert(d.alphabet.contains(c));
                assert(d.alphabet.to_set().contains(c));
                assert(n.alphabet.to_set().contains(c));
            }
        }
    }
}

/// The subset automaton accepts exactly the words its NFA accepts.
pub proof fn lemma_subset_dfa_language(n: NfaView, d: DfaView, sets: Seq<Seq<bool>>, w: Seq<char>)
    requires
        n.wf(),
        is_subset_dfa(n, d, sets),
    ensures
        d.accepts(w) == nfa_accepts(n, w),
{
    lemma_closure_unique(n, singleton(n.num_states(), n.start), sets[0]);
    lemma_subset_dfa_accepts_from(n, d, sets, 0, w);
}

} // verus!
