//! The automaton that the translator builds: a growing graph of numbered
//! states with the primitive operations for adding to it and for merging
//! another automaton into it.

use vstd::prelude::*;
use crate::nfa::{Edge, Nfa};

verus! {

/// One entry of the transitions that leave a state: where it leads, and on
/// which symbol. Without a symbol the transition consumes no input.
#[derive(Clone, Copy, Debug, PartialEq, Eq)]
pub struct Transition {
    pub to: usize,
    pub symbol: Option<char>,
}

impl View for Transition {
    type V = Edge;

    open spec fn view(&self) -> Edge {
        Edge { to: self.to as nat, symbol: self.symbol }
    }
}

/// The edges that a row of transitions stands for.
pub open spec fn row_view(row: Seq<Transition>) -> Seq<Edge> {
    row.map_values(|t: Transition| t@)
}

/// A nondeterministic finite automaton under construction.
#[derive(Debug)]
pub struct Automaton {
    /// The transitions by source state; its length is the number of states.
    transitions: Vec<Vec<Transition>>,
    start_state: Option<usize>,
    /// The accepting states, each once.
    accepting_states: Vec<usize>,
}

impl View for Automaton {
    type V = Nfa;

    closed spec fn view(&self) -> Nfa {
        Nfa {
            rows: self.transitions@.map_values(|row: Vec<Transition>| row_view(row@)),
            start: match self.start_state {
                Some(state) => Some(state as nat),
                None => None,
            },
            accepting: Set::new(|q: nat| q <= usize::MAX && self.accepting_states@.contains(q as usize)),
        }
    }
}

impl Automaton {
    /// The invariant of the type: no accepting state is listed twice, and
    /// every state that is mentioned exists.
    pub closed spec fn wf(&self) -> bool {
        &&& self.accepting_states@.no_duplicates()
        &&& self@.well_formed()
    }

    /// A well-formed automaton stands for a well-formed model.
    pub proof fn lemma_wf_view(&self)
        requires
            self.wf(),
        ensures
            self@.well_formed(),
    {
    }

    /// The number of states of an automaton is a machine number.
    pub proof fn lemma_states_fit(&self)
        ensures
            self@.states() <= usize::MAX,
    {
        assert(self.transitions@.len() == self.transitions.len());
    }

    /// The automaton without states, transitions, start or accepting states.
    pub fn new() -> (automaton: Automaton)
        ensures
            automaton.wf(),
            automaton@ == Nfa::empty(),
    {
        let automaton = Automaton {
            transitions: Vec::new(),
            start_state: None,
            accepting_states: Vec::new(),
        };
        assert(automaton@.rows =~= Nfa::empty().rows);
        assert(automaton@.accepting =~= Nfa::empty().accepting);
        automaton
    }

    /// The number of states.
    pub fn states(&self) -> (count: usize)
        ensures
            count == self@.states(),
    {
        self.transitions.len()
    }

    /// The start state, if one has been set.
    pub fn start_state(&self) -> (start: Option<usize>)
        ensures
            start matches Some(state) ==> self@.start == Some(state as nat),
            start is None ==> self@.start is None,
    {
        self.start_state
    }

    /// The accepting states, each once.
    pub fn accepting_states(&self) -> (accepting: &Vec<usize>)
        requires
            self.wf(),
        ensures
            accepting@.no_duplicates(),
            forall|q: nat|
                self@.accepting.contains(q) <==> q <= usize::MAX && accepting@.contains(q as usize),
    {
        &self.accepting_states
    }

    /// The accepting state of an automaton that has exactly one.
    pub fn accepting_state(&self) -> (state: usize)
        requires
            self.wf(),
            exists|q: nat| self@.accepting == set![q],
        ensures
            self@.accepting == set![state as nat],
    {
        proof {
            let q = choose|q: nat| self@.accepting == set![q];
            assert(self@.accepting.contains(q));
            let first = self.accepting_states@[0];
            assert(self@.accepting.contains(first as nat));
        }
        self.accepting_states[0]
    }

    /// The transitions that leave `state`, in the order in which they were added.
    pub fn transitions(&self, state: usize) -> (row: &Vec<Transition>)
        requires
            state < self@.states(),
        ensures
            row_view(row@) == self@.rows[state as int],
    {
        &self.transitions[state]
    }

    /// Adds a state and returns its number, which is the number of states before.
    pub fn add_state(&mut self) -> (state: usize)
        requires
            old(self).wf(),
        ensures
            final(self).wf(),
            state == old(self)@.states(),
            final(self)@ == old(self)@.add_state(),
    {
        let state = self.transitions.len();
        self.transitions.push(Vec::new());
        proof {
            assert(row_view(Seq::<Transition>::empty()) =~= Seq::<Edge>::empty());
            assert(final(self)@.rows =~= old(self)@.add_state().rows);
        }
        state
    }

    /// Makes `state` the start state.
    pub fn set_start_state(&mut self, state: usize)
        requires
            old(self).wf(),
            state < old(self)@.states(),
        ensures
            final(self).wf(),
            final(self)@ == old(self)@.set_start_state(state as nat),
    {
        self.start_state = Some(state);
        proof {
            assert(final(self)@.accepting =~= old(self)@.accepting);
        }
    }

    /// Whether `state` is an accepting state.
    pub fn is_accepting(&self, state: usize) -> (accepting: bool)
        ensures
            accepting == self@.accepting.contains(state as nat),
    {
        self.position(state).is_some()
    }

    /// Where `state` stands in the list of accepting states.
    fn position(&self, state: usize) -> (place: Option<usize>)
        ensures
            match place {
                Some(k) => k < self.accepting_states@.len() && self.accepting_states@[k as int] == state,
                None => !self.accepting_states@.contains(state),
            },
            place is Some == self@.accepting.contains(state as nat),
    {
        let mut k: usize = 0;
        while k < self.accepting_states.len()
            invariant
                k <= self.accepting_states@.len(),
                forall|j: int| 0 <= j < k ==> self.accepting_states@[j] != state,
            decreases self.accepting_states@.len() - k,
        {
            if self.accepting_states[k] == state {
                return Some(k);
            }
            k += 1;
        }
        None
    }

    /// Marks `state` as accepting, or takes the mark away.
    pub fn set_accepting(&mut self, state: usize, accepting: bool)
        requires
            old(self).wf(),
            accepting ==> state < old(self)@.states(),
        ensures
            final(self).wf(),
            final(self)@ == old(self)@.set_accepting(state as nat, accepting),
    {
        let place = self.position(state);
        match place {
            Some(k) => {
                if !accepting {
                    self.accepting_states.remove(k);
                    proof {
                        let before = old(self).accepting_states@;
                        let after = final(self).accepting_states@;
                        assert forall|q: nat|
                            final(self)@.accepting.contains(q) == old(self)@.set_accepting(
                                state as nat,
                                accepting,
                            ).accepting.contains(q) by {
                            if q <= usize::MAX && after.contains(q as usize) {
                                let j = choose|j: int| 0 <= j < after.len() && after[j] == q as usize;
                                if j < k {
                                    assert(before[j] == q as usize);
                                } else {
                                    assert(before[j + 1] == q as usize);
                                }
                            }
                            if q != state && q <= usize::MAX && before.contains(q as usize) {
                                let j = choose|j: int| 0 <= j < before.len() && before[j] == q as usize;
                                if j < k {
                                    assert(after[j] == q as usize);
                                } else {
                                    assert(after[j - 1] == q as usize);
                                }
                            }
                        }
                        assert(final(self)@.accepting =~= old(self)@.set_accepting(
                            state as nat,
                            accepting,
                        ).accepting);
                    }
                } else {
                    proof {
                        assert(final(self)@.accepting =~= old(self)@.set_accepting(
                            state as nat,
                            accepting,
                        ).accepting);
                    }
                }
            },
            None => {
                if accepting {
                    self.accepting_states.push(state);
                    proof {
                        let before = old(self).accepting_states@;
                        let after = final(self).accepting_states@;
                        assert forall|q: nat|
                            final(self)@.accepting.contains(q) == old(self)@.set_accepting(
                                state as nat,
                                accepting,
                            ).accepting.contains(q) by {
                            if q <= usize::MAX && after.contains(q as usize) {
                                let j = choose|j: int| 0 <= j < after.len() && after[j] == q as usize;
                                if j < before.len() {
                                    assert(before[j] == q as usize);
                                }
                            }
                            if q <= usize::MAX && before.contains(q as usize) {
                                let j = choose|j: int| 0 <= j < before.len() && before[j] == q as usize;
                                assert(after[j] == q as usize);
                            }
                            if q == state {
                                assert(after[before.len() as int] == state);
                            }
                        }
                        assert(final(self)@.accepting =~= old(self)@.set_accepting(
                            state as nat,
                            accepting,
                        ).accepting);
                    }
                } else {
                    proof {
                        assert(final(self)@.accepting =~= old(self)@.set_accepting(
                            state as nat,
                            accepting,
                        ).accepting);
                    }
                }
            },
        }
    }

    /// Takes the mark from every accepting state.
    pub fn clear_accepting(&mut self)
        requires
            old(self).wf(),
        ensures
            final(self).wf(),
            final(self)@ == old(self)@.clear_accepting(),
    {
        self.accepting_states.clear();
        proof {
            assert(final(self)@.accepting =~= Set::<nat>::empty());
        }
    }

    /// Adds a transition from `from` to `to`, on `symbol` or, without one,
    /// on no input. Transitions already there between the two states stay.
    pub fn add_transition(&mut self, from: usize, to: usize, symbol: Option<char>)
        requires
            old(self).wf(),
            from < old(self)@.states(),
            to < old(self)@.states(),
        ensures
            final(self).wf(),
            final(self)@ == old(self)@.add_transition(from as nat, to as nat, symbol),
    {
        self.transitions[from].push(Transition { to, symbol });
        proof {
            let added = Transition { to, symbol };
            assert(row_view(old(self).transitions@[from as int]@.push(added)) =~= row_view(
                old(self).transitions@[from as int]@,
            ).push(added@));
            assert(final(self)@.rows =~= old(self)@.add_transition(from as nat, to as nat, symbol).rows);
        }
    }

    /// Merges `other` into this automaton: its states come behind the states
    /// already here, so each of its state numbers grows by the number of
    /// states before, in its transitions and in its accepting marks alike.
    /// The start state stays, and nothing joins the two parts: the caller
    /// adds the transitions between them.
    pub fn add_states_and_transitions(&mut self, other: Automaton)
        requires
            old(self).wf(),
            other.wf(),
        ensures
            final(self).wf(),
            final(self)@ == old(self)@.merge(other@),
            final(self)@.states() == old(self)@.states() + other@.states(),
    {
        let offset = self.transitions.len();
        let ghost theirs = other.transitions@;
        let ghost merged = old(self)@.merge(other@);
        proof {
            assert forall|q: int, k: int|
                0 <= q < theirs.len() && 0 <= k < theirs[q]@.len() implies (#[trigger] theirs[q]@[k]).to
                < theirs.len() by {
                assert(other@.rows[q][k].to < other@.states());
            }
            assert forall|j: int| 0 <= j < other.accepting_states@.len() implies other.accepting_states@[j]
                < theirs.len() by {
                assert(other@.accepting.contains(other.accepting_states@[j] as nat));
            }
        }
        let Automaton { transitions: mut rows, start_state: _, accepting_states: marks } = other;
        self.transitions.append(&mut rows);
        let total = self.transitions.len();
        let mut i: usize = offset;
        while i < total
            invariant
                offset <= i <= total,
                offset == old(self).transitions@.len(),
                total == offset + theirs.len(),
                self.transitions@.len() == total,
                self.start_state == old(self).start_state,
                self.accepting_states == old(self).accepting_states,
                forall|q: int| 0 <= q < offset ==> self.transitions@[q] == old(self).transitions@[q],
                forall|q: int|
                    offset <= q < i ==> row_view(#[trigger] self.transitions@[q]@) == row_view(
                        theirs[q - offset]@,
                    ).map_values(|e: Edge| e.shift(offset as nat)),
                forall|q: int| i <= q < total ==> self.transitions@[q] == theirs[q - offset],
                forall|q: int, k: int|
                    0 <= q < theirs.len() && 0 <= k < theirs[q]@.len() ==> (#[trigger] theirs[q]@[k]).to
                        < theirs.len(),
            decreases total - i,
        {
            let width = self.transitions[i].len();
            let ghost row = self.transitions@[i as int]@;
            let mut j: usize = 0;
            while j < width
                invariant
                    offset <= i < total,
                    offset == old(self).transitions@.len(),
                    total == offset + theirs.len(),
                    self.transitions@.len() == total,
                    self.start_state == old(self).start_state,
                    self.accepting_states == old(self).accepting_states,
                    row == theirs[i - offset]@,
                    j <= width == row.len(),
                    self.transitions@[i as int]@.len() == width,
                    forall|q: int| 0 <= q < offset ==> self.transitions@[q] == old(self).transitions@[q],
                    forall|q: int|
                        offset <= q < i ==> row_view(#[trigger] self.transitions@[q]@) == row_view(
                            theirs[q - offset]@,
                        ).map_values(|e: Edge| e.shift(offset as nat)),
                    forall|q: int| i < q < total ==> self.transitions@[q] == theirs[q - offset],
                    forall|k: int|
                        0 <= k < j ==> (#[trigger] self.transitions@[i as int]@[k])@ == row[k]@.shift(
                            offset as nat,
                        ),
                    forall|k: int| j <= k < width ==> self.transitions@[i as int]@[k] == row[k],
                    forall|q: int, k: int|
                        0 <= q < theirs.len() && 0 <= k < theirs[q]@.len() ==> (
                        #[trigger] theirs[q]@[k]).to < theirs.len(),
                decreases width - j,
            {
                let t = self.transitions[i][j];
                self.transitions[i][j] = Transition { to: t.to + offset, symbol: t.symbol };
                j += 1;
            }
            proof {
                assert(row_view(self.transitions@[i as int]@) =~= row_view(row).map_values(
                    |e: Edge| e.shift(offset as nat),
                ));
            }
            i += 1;
        }
        let ghost before = self.accepting_states@;
        let mut k: usize = 0;
        while k < marks.len()
            invariant
                k <= marks@.len(),
                marks@ == other.accepting_states@,
                offset == old(self).transitions@.len(),
                total == offset + theirs.len(),
                self.transitions@.len() == total,
                self.start_state == old(self).start_state,
                before == old(self).accepting_states@,
                self.accepting_states@.len() == before.len() + k,
                forall|j: int| 0 <= j < before.len() ==> self.accepting_states@[j] == before[j],
                forall|j: int|
                    0 <= j < k ==> self.accepting_states@[before.len() + j] == marks@[j] + offset,
                forall|j: int| 0 <= j < marks@.len() ==> marks@[j] < theirs.len(),
                forall|q: int| 0 <= q < offset ==> self.transitions@[q] == old(self).transitions@[q],
                forall|q: int|
                    offset <= q < total ==> row_view(#[trigger] self.transitions@[q]@) == row_view(
                        theirs[q - offset]@,
                    ).map_values(|e: Edge| e.shift(offset as nat)),
            decreases marks@.len() - k,
        {
            self.accepting_states.push(marks[k] + offset);
            k += 1;
        }
        proof {
            let after = self.accepting_states@;
            assert forall|j: int| 0 <= j < before.len() implies before[j] < offset by {
                assert(old(self)@.accepting.contains(before[j] as nat));
            }
            assert forall|q: nat| self@.accepting.contains(q) == merged.accepting.contains(q) by {
                if q <= usize::MAX && after.contains(q as usize) {
                    let j = choose|j: int| 0 <= j < after.len() && after[j] == q as usize;
                    if j < before.len() {
                        assert(before[j] == q as usize);
                    } else {
                        assert(marks@[j - before.len()] + offset == q);
                    }
                }
                if old(self)@.accepting.contains(q) {
                    let j = choose|j: int| 0 <= j < before.len() && before[j] == q as usize;
                }
                if q >= offset && other@.accepting.contains((q - offset) as nat) {
                    let j = choose|j: int| 0 <= j < marks@.len() && marks@[j] == (q - offset) as usize;
                    assert(after[before.len() + j] == q as usize);
                }
            }
            assert(self@.rows =~= merged.rows);
            assert(self@.accepting =~= merged.accepting);
            assert forall|a: int, b: int| 0 <= a < after.len() && 0 <= b < after.len() && a != b implies after[a]
                != after[b] by {
                if a < before.len() {
                    assert(after[a] == before[a] && before[a] < offset);
                } else {
                    assert(after[a] == marks@[a - before.len()] + offset);
                }
                if b < before.len() {
                    assert(after[b] == before[b] && before[b] < offset);
                } else {
                    assert(after[b] == marks@[b - before.len()] + offset);
                }
                if a >= before.len() && b >= before.len() {
                    assert(marks@[a - before.len()] != marks@[b - before.len()]);
                }
            }
        }
    }
}

} // verus!
