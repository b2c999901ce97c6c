//! The mathematical model of an automaton: states are the numbers below a
//! count, every state has an ordered row of outgoing edges, and the
//! operations that grow and merge automata are plain functions on that model.

use vstd::prelude::*;

verus! {

/// One outgoing edge of a state. An edge without a symbol consumes no input.
pub struct Edge {
    pub to: nat,
    pub symbol: Option<char>,
}

impl Edge {
    /// The same edge with its destination moved up by `offset`.
    pub open spec fn shift(self, offset: nat) -> Edge {
        Edge { to: self.to + offset, symbol: self.symbol }
    }
}

/// An automaton as a mathematical value.
pub struct Nfa {
    /// `rows[q]` holds the edges that leave state `q`, in the order in which
    /// they were added. The length of `rows` is the number of states.
    pub rows: Seq<Seq<Edge>>,
    /// The start state, once one has been chosen.
    pub start: Option<nat>,
    /// The accepting states.
    pub accepting: Set<nat>,
}

impl Nfa {
    /// The number of states.
    pub open spec fn states(self) -> nat {
        self.rows.len()
    }

    /// Whether an edge with this symbol leads from `from` to `to`.
    pub open spec fn has_edge(self, from: nat, symbol: Option<char>, to: nat) -> bool {
        from < self.states() && self.rows[from as int].contains(Edge { to, symbol })
    }

    /// Every state that the automaton mentions exists.
    pub open spec fn well_formed(self) -> bool {
        &&& forall|q: int, k: int|
            0 <= q < self.rows.len() && 0 <= k < self.rows[q].len() ==> (#[trigger] self.rows[q][k]).to
                < self.states()
        &&& self.start matches Some(s) ==> s < self.states()
        &&& forall|q: nat| #[trigger] self.accepting.contains(q) ==> q < self.states()
    }

    /// A well-formed automaton with one start state and one accepting state.
    pub open spec fn is_fragment(self) -> bool {
        &&& self.well_formed()
        &&& self.start is Some
        &&& exists|q: nat| self.accepting == set![q]
    }

    /// The automaton without states.
    pub open spec fn empty() -> Nfa {
        Nfa { rows: Seq::empty(), start: None, accepting: Set::empty() }
    }

    /// One more state, numbered by the count before, with no edges.
    pub open spec fn add_state(self) -> Nfa {
        Nfa { rows: self.rows.push(Seq::empty()), ..self }
    }

    /// The same automaton started at `state`.
    pub open spec fn set_start_state(self, state: nat) -> Nfa {
        Nfa { start: Some(state), ..self }
    }

    /// The same automaton with `state` marked, or no longer marked, as accepting.
    pub open spec fn set_accepting(self, state: nat, accepting: bool) -> Nfa {
        Nfa {
            accepting: if accepting {
                self.accepting.insert(state)
            } else {
                self.accepting.remove(state)
            },
            ..self
        }
    }

    /// The same automaton with no accepting state.
    pub open spec fn clear_accepting(self) -> Nfa {
        Nfa { accepting: Set::empty(), ..self }
    }

    /// One more edge at the end of the row of `from`.
    pub open spec fn add_transition(self, from: nat, to: nat, symbol: Option<char>) -> Nfa {
        Nfa {
            rows: self.rows.update(from as int, self.rows[from as int].push(Edge { to, symbol })),
            ..self
        }
    }

    /// The rows of `other` behind those of `self`, every destination moved up
    /// by the number of states of `self`; the accepting states of `other`
    /// moved up likewise and added. The start state stays that of `self`, and
    /// no edge joins the two parts.
    pub open spec fn merge(self, other: Nfa) -> Nfa {
        Nfa {
            rows: self.rows + other.rows.map_values(
                |row: Seq<Edge>| row.map_values(|e: Edge| e.shift(self.states())),
            ),
            start: self.start,
            accepting: Set::new(
                |q: nat|
                    self.accepting.contains(q) || (q >= self.states() && other.accepting.contains(
                        (q - self.states()) as nat,
                    )),
            ),
        }
    }

    /// Merging an automaton of `n` states into one of `m` states gives one of
    /// `m + n` states. The rows of the first stand where they stood; each row
    /// of the second stands `m` places further on, and every edge in it leads
    /// to a state `m` higher than it did.
    pub proof fn lemma_merge_rows(a: Nfa, b: Nfa)
        ensures
            a.merge(b).states() == a.states() + b.states(),
            forall|q: int| 0 <= q < a.states() ==> a.merge(b).rows[q] == a.rows[q],
            forall|q: int|
                0 <= q < b.states() ==> (#[trigger] a.merge(b).rows[q + a.states()]).len()
                    == b.rows[q].len(),
            forall|q: int, k: int|
                0 <= q < b.states() && 0 <= k < b.rows[q].len() ==> a.merge(b).rows[q
                    + a.states()][k] == (#[trigger] b.rows[q][k]).shift(a.states()),
    {
    }

    /// Merging well-formed automata gives a well-formed automaton.
    pub proof fn lemma_merge_well_formed(a: Nfa, b: Nfa)
        requires
            a.well_formed(),
            b.well_formed(),
        ensures
            a.merge(b).well_formed(),
            a.merge(b).states() == a.states() + b.states(),
    {
        let m = a.merge(b);
        assert forall|q: int, k: int| 0 <= q < m.rows.len() && 0 <= k < m.rows[q].len() implies (
        #[trigger] m.rows[q][k]).to < m.states() by {
            if q < a.rows.len() {
                assert(m.rows[q][k] == a.rows[q][k]);
            } else {
                assert(m.rows[q][k] == b.rows[q - a.rows.len()][k].shift(a.states()));
            }
        }
    }

    /// A new state keeps an automaton well formed and adds no edge.
    pub proof fn lemma_add_state(self)
        requires
            self.well_formed(),
        ensures
            self.add_state().well_formed(),
            self.add_state().states() == self.states() + 1,
            forall|from: nat, symbol: Option<char>, to: nat|
                self.add_state().has_edge(from, symbol, to) == self.has_edge(from, symbol, to),
    {
        let grown = self.add_state();
        assert forall|q: int, k: int| 0 <= q < grown.rows.len() && 0 <= k < grown.rows[q].len() implies (
        #[trigger] grown.rows[q][k]).to < grown.states() by {
            assert(grown.rows[q][k] == self.rows[q][k]);
        }
        assert forall|from: nat, symbol: Option<char>, to: nat|
            grown.has_edge(from, symbol, to) == self.has_edge(from, symbol, to) by {
            if from < self.states() {
                assert(grown.rows[from as int] == self.rows[from as int]);
            }
        }
    }

    /// A new edge between states that exist keeps an automaton well formed,
    /// and is the only edge that is new.
    pub proof fn lemma_add_transition(self, a: nat, b: nat, label: Option<char>)
        requires
            self.well_formed(),
            a < self.states(),
            b < self.states(),
        ensures
            self.add_transition(a, b, label).well_formed(),
            self.add_transition(a, b, label).states() == self.states(),
            forall|from: nat, symbol: Option<char>, to: nat|
                self.add_transition(a, b, label).has_edge(from, symbol, to) == (self.has_edge(
                    from,
                    symbol,
                    to,
                ) || (from == a && symbol == label && to == b)),
    {
        let grown = self.add_transition(a, b, label);
        let added = Edge { to: b, symbol: label };
        assert forall|q: int, k: int| 0 <= q < grown.rows.len() && 0 <= k < grown.rows[q].len() implies (
        #[trigger] grown.rows[q][k]).to < grown.states() by {
            if q == a && k == self.rows[q].len() {
            } else {
                assert(grown.rows[q][k] == self.rows[q][k]);
            }
        }
        assert forall|from: nat, symbol: Option<char>, to: nat|
            grown.has_edge(from, symbol, to) == (self.has_edge(from, symbol, to) || (from == a && symbol
                == label && to == b)) by {
            let e = Edge { to, symbol };
            if from < self.states() {
                if from == a {
                    let old_row = self.rows[a as int];
                    let new_row = grown.rows[a as int];
                    assert(new_row == old_row.push(added));
                    if old_row.contains(e) {
                        let k = choose|k: int| 0 <= k < old_row.len() && old_row[k] == e;
                        assert(new_row[k] == e);
                    }
                    if e == added {
                        assert(new_row[old_row.len() as int] == e);
                    }
                    if new_row.contains(e) {
                        let k = choose|k: int| 0 <= k < new_row.len() && new_row[k] == e;
                        if k < old_row.len() {
                            assert(old_row[k] == e);
                        }
                    }
                } else {
                    assert(grown.rows[from as int] == self.rows[from as int]);
                }
            }
        }
    }

    /// The edges of a merged automaton are the edges of the first and, moved
    /// up, the edges of the second.
    pub proof fn lemma_merge_edges(a: Nfa, b: Nfa)
        requires
            a.well_formed(),
            b.well_formed(),
        ensures
            forall|from: nat, symbol: Option<char>, to: nat|
                a.merge(b).has_edge(from, symbol, to) == (a.has_edge(from, symbol, to) || (from
                    >= a.states() && to >= a.states() && b.has_edge(
                    (from - a.states()) as nat,
                    symbol,
                    (to - a.states()) as nat,
                ))),
    {
        let m = a.merge(b);
        let n = a.states();
        assert forall|from: nat, symbol: Option<char>, to: nat|
            m.has_edge(from, symbol, to) == (a.has_edge(from, symbol, to) || (from >= n && to >= n
                && b.has_edge((from - n) as nat, symbol, (to - n) as nat))) by {
            let e = Edge { to, symbol };
            if from < n {
                assert(m.rows[from as int] == a.rows[from as int]);
            } else if from < m.states() {
                let row = b.rows[from - n];
                let moved = m.rows[from as int];
                assert(moved == row.map_values(|e: Edge| e.shift(n)));
                if moved.contains(e) {
                    let k = choose|k: int| 0 <= k < moved.len() && moved[k] == e;
                    assert(moved[k] == row[k].shift(n));
                    assert(row[k] == Edge { to: (to - n) as nat, symbol });
                }
                if to >= n && row.contains(Edge { to: (to - n) as nat, symbol }) {
                    let k = choose|k: int|
                        0 <= k < row.len() && row[k] == Edge { to: (to - n) as nat, symbol };
                    assert(moved[k] == e);
                }
            }
        }
    }

    /// In a well-formed automaton every edge joins states that exist.
    pub proof fn lemma_edge_in_range(self, from: nat, symbol: Option<char>, to: nat)
        requires
            self.well_formed(),
            self.has_edge(from, symbol, to),
        ensures
            from < self.states(),
            to < self.states(),
    {
        let row = self.rows[from as int];
        let k = choose|k: int| 0 <= k < row.len() && row[k] == Edge { to, symbol };
        assert(self.rows[from as int][k].to < self.states());
    }
}

} // verus!
