//! The input model: an explicit transition system with labelled states.
//!
//! A [`TransitionSystem`] is the read-only input of the responsibility engine:
//! an ordered list of states, each with outgoing transitions, a variable
//! valuation and label indices, together with the initial state index and the
//! variable table. [`TransitionSystem::verify_counterexample`] checks that a
//! state sequence is a genuine counterexample: non-empty, starting at the
//! initial state, connected by existing transitions, and ending in a bad
//! state.

use vstd::prelude::*;
use vstd::string::StringExecFns;

verus! {

#[derive(Debug)]
pub struct Transition {
    pub destination: usize,
}

impl Transition {
    pub fn new(destination: usize) -> (t: Transition)
        ensures
            t.destination == destination,
    {
        Transition { destination }
    }
}

#[derive(Debug)]
pub struct State {
    pub outgoing_transitions: Vec<Transition>,
    pub valuation_indices: Vec<usize>,
    pub is_bad: bool,
    pub labels: Vec<usize>,
}

impl State {
    pub fn new(valuation_indices: Vec<usize>) -> (s: State)
        ensures
            s.valuation_indices == valuation_indices,
            s.outgoing_transitions@.len() == 0,
            s.is_bad == false,
            s.labels@.len() == 0,
    {
        State {
            valuation_indices,
            outgoing_transitions: Vec::new(),
            is_bad: false,
            labels: Vec::new(),
        }
    }

    /// Whether some outgoing transition leads to `to`.
    pub open spec fn spec_has_transition_to(&self, to: int) -> bool {
        exists|j: int|
            0 <= j < self.outgoing_transitions@.len() && (#[trigger] self.outgoing_transitions@[j]).destination == to
    }

    pub fn has_transition_to(&self, to: usize) -> (b: bool)
        ensures
            b == self.spec_has_transition_to(to as int),
    {
        let n = self.outgoing_transitions.len();
        let mut j: usize = 0;
        while j < n
            invariant
                j <= n,
                n == self.outgoing_transitions@.len(),
                forall|k: int|
                    0 <= k < j ==> (#[trigger] self.outgoing_transitions@[k]).destination != to,
            decreases n - j,
        {
            if self.outgoing_transitions[j].destination == to {
                return true;
            }
            j = j + 1;
        }
        false
    }

    /// The rendering of this state's valuation: `name=value` pairs joined by
    /// a comma and a space, in variable order.
    pub open spec fn spec_to_string(&self, variables: Seq<Variable>) -> Seq<char> {
        render_valuation(variables, self.valuation_indices@, self.valuation_indices@.len() as int)
    }

    pub fn to_string(&self, variables: &Vec<Variable>) -> (s: String)
        requires
            self.valuation_indices@.len() <= variables@.len(),
            forall|i: int|
                0 <= i < self.valuation_indices@.len() ==> (#[trigger] self.valuation_indices@[i])
                    < variables@[i].valuation_names@.len(),
        ensures
            s@ == self.spec_to_string(variables@),
    {
        let mut s = String::new();
        let n = self.valuation_indices.len();
        let mut i: usize = 0;
        while i < n
            invariant
                i <= n,
                n == self.valuation_indices@.len(),
                self.valuation_indices@.len() <= variables@.len(),
                forall|k: int|
                    0 <= k < self.valuation_indices@.len() ==> (#[trigger] self.valuation_indices@[k]) < variables@[k].valuation_names@.len(),
                s@ == render_valuation(variables@, self.valuation_indices@, i as int),
            decreases n - i,
        {
            if i > 0 {
                s.append(", ");
            }
            s.append(variables[i].name.as_str());
            s.append("=");
            s.append(variables[i].valuation_names[self.valuation_indices[i]].as_str());
            i = i + 1;
        }
        s
    }
}

/// The first `k` rendered `name=value` entries, comma-separated.
pub open spec fn render_valuation(variables: Seq<Variable>, vals: Seq<usize>, k: int) -> Seq<char>
    decreases k,
{
    if k <= 0 {
        Seq::<char>::empty()
    } else {
        let entry = variables[k - 1].name@ + "="@ + variables[k - 1].valuation_names@[vals[k - 1] as int]@;
        if k == 1 {
            entry
        } else {
            render_valuation(variables, vals, k - 1) + ", "@ + entry
        }
    }
}

#[derive(Debug)]
pub struct Variable {
    pub name: String,
    pub valuation_names: Vec<String>,
}

impl Variable {
    pub fn new(name: String) -> (v: Variable)
        ensures
            v.name == name,
            v.valuation_names@.len() == 0,
    {
        Variable { name, valuation_names: Vec::new() }
    }

    /// The first index whose valuation name reads `valuation`, if any.
    pub open spec fn spec_valuation_index(&self, valuation: Seq<char>) -> Option<usize> {
        if exists|i: int|
            0 <= i < self.valuation_names@.len() && (#[trigger] self.valuation_names@[i])@
                == valuation {
            Some(
                (choose|i: int|
                    0 <= i < self.valuation_names@.len() && (#[trigger] self.valuation_names@[i])@
                        == valuation && forall|j: int|
                        0 <= j < i ==> (#[trigger] self.valuation_names@[j])@ != valuation)
                    as usize,
            )
        } else {
            None
        }
    }

    pub fn get_valuation_index(&self, valuation: &String) -> (r: Option<usize>)
        ensures
            match r {
                Some(i) => i < self.valuation_names@.len() && self.valuation_names@[i as int]@
                    == valuation@ && forall|j: int|
                    0 <= j < i ==> (#[trigger] self.valuation_names@[j])@ != valuation@,
                None => forall|j: int|
                    0 <= j < self.valuation_names@.len() ==> (#[trigger] self.valuation_names@[j])@
                        != valuation@,
            },
    {
        let n = self.valuation_names.len();
        let mut i: usize = 0;
        while i < n
            invariant
                i <= n,
                n == self.valuation_names@.len(),
                forall|j: int| 0 <= j < i ==> (#[trigger] self.valuation_names@[j])@ != valuation@,
            decreases n - i,
        {
            if self.valuation_names[i].eq(valuation) {
                return Some(i);
            }
            i = i + 1;
        }
        None
    }

    /// Looks the valuation up, appending it as a fresh one when absent.
    pub fn get_valuation_index_or_add(&mut self, valuation: &String) -> (r: usize)
        requires
            old(self).valuation_names@.len() < usize::MAX,
        ensures
            final(self).name == old(self).name,
            r < final(self).valuation_names@.len(),
            final(self).valuation_names@[r as int]@ == valuation@,
            forall|j: int| 0 <= j < r ==> (#[trigger] final(self).valuation_names@[j])@ != valuation@,
            if exists|j: int|
                0 <= j < old(self).valuation_names@.len() && (#[trigger] old(
                    self,
                ).valuation_names@[j])@ == valuation@ {
                final(self).valuation_names == old(self).valuation_names
            } else {
                final(self).valuation_names@ =~= old(self).valuation_names@.push(*valuation)
            },
    {
        let n = self.valuation_names.len();
        let mut i: usize = 0;
        while i < n
            invariant
                i <= n,
                n == self.valuation_names@.len(),
                forall|j: int| 0 <= j < i ==> (#[trigger] self.valuation_names@[j])@ != valuation@,
            decreases n - i,
        {
            if self.valuation_names[i].eq(valuation) {
                return i;
            }
            i = i + 1;
        }
        self.valuation_names.push(valuation.clone());
        n
    }
}

/// Why a claimed counterexample was rejected.
#[derive(Copy, Clone, Debug, Eq, PartialEq, Structural)]
pub enum CounterexampleError {
    /// The sequence is empty.
    Empty,
    /// Some entry is not a state index of the system; the field holds its
    /// position in the sequence.
    InvalidStateIndex { position: usize },
    /// The first entry differs from the initial state.
    DoesNotStartAtInitial,
    /// The pair at `position`, `position + 1` is not connected by a
    /// transition.
    MissingTransition { position: usize },
    /// The final state is not marked bad.
    LastStateNotBad,
}

#[derive(Debug)]
pub struct TransitionSystem {
    pub states: Vec<State>,
    pub initial_state: usize,
    pub variables: Vec<Variable>,
    pub label_names: Vec<(usize, String)>,
}

impl TransitionSystem {
    pub fn new(
        states: Vec<State>,
        initial_state: usize,
        variables: Vec<Variable>,
        label_names: Vec<(usize, String)>,
    ) -> (ts: TransitionSystem)
        ensures
            ts.states == states,
            ts.initial_state == initial_state,
            ts.variables == variables,
            ts.label_names == label_names,
    {
        TransitionSystem { states, initial_state, variables, label_names }
    }

    pub fn get_variable_index(&self, name: &String) -> (r: Option<usize>)
        ensures
            match r {
                Some(i) => i < self.variables@.len() && self.variables@[i as int].name@ == name@
                    && forall|j: int|
                    0 <= j < i ==> (#[trigger] self.variables@[j]).name@ != name@,
                None => forall|j: int|
                    0 <= j < self.variables@.len() ==> (#[trigger] self.variables@[j]).name@
                        != name@,
            },
    {
        let n = self.variables.len();
        let mut i: usize = 0;
        while i < n
            invariant
                i <= n,
                n == self.variables@.len(),
                forall|j: int| 0 <= j < i ==> (#[trigger] self.variables@[j]).name@ != name@,
            decreases n - i,
        {
            if self.variables[i].name.eq(name) {
                return Some(i);
            }
            i = i + 1;
        }
        None
    }

    /// Whether the state at `i` carries exactly the given valuation.
    pub open spec fn state_matches(&self, i: int, valuation: Seq<usize>) -> bool {
        self.states@[i].valuation_indices@ == valuation
    }

    pub fn find_state_with_valuation(&self, valuation: &Vec<usize>) -> (r: Option<usize>)
        ensures
            match r {
                Some(i) => i < self.states@.len() && self.state_matches(i as int, valuation@)
                    && forall|j: int| 0 <= j < i ==> !self.state_matches(j, valuation@),
                None => forall|j: int| 0 <= j < self.states@.len() ==> !self.state_matches(j, valuation@),
            },
    {
        let n = self.states.len();
        let mut i: usize = 0;
        while i < n
            invariant
                i <= n,
                n == self.states@.len(),
                forall|j: int| 0 <= j < i ==> !self.state_matches(j, valuation@),
            decreases n - i,
        {
            let vals = &self.states[i].valuation_indices;
            let m = vals.len();
            if m == valuation.len() {
                let mut k: usize = 0;
                let mut matches = true;
                while k < m
                    invariant
                        k <= m,
                        m == vals@.len(),
                        m == valuation@.len(),
                        vals == self.states@[i as int].valuation_indices,
                        matches == (forall|l: int| 0 <= l < k ==> vals@[l] == valuation@[l]),
                    decreases m - k,
                {
                    if vals[k] != valuation[k] {
                        matches = false;
                    }
                    k = k + 1;
                }
                if matches {
                    proof {
                        assert(self.states@[i as int].valuation_indices@ =~= valuation@);
                    }
                    return Some(i);
                }
                proof {
                    assert(!self.state_matches(i as int, valuation@));
                }
            } else {
                proof {
                    assert(!self.state_matches(i as int, valuation@));
                }
            }
            i = i + 1;
        }
        None
    }

    /// The §-invariants of a counterexample: non-empty, within range,
    /// starting at the initial state, connected, ending in a bad state.
    pub open spec fn is_valid_counterexample(&self, ce: Seq<usize>) -> bool {
        &&& ce.len() > 0
        &&& forall|i: int| 0 <= i < ce.len() ==> (#[trigger] ce[i]) < self.states@.len()
        &&& ce[0] == self.initial_state
        &&& forall|i: int|
            0 <= i < ce.len() - 1 ==> self.states@[ce[i] as int].spec_has_transition_to(
                #[trigger] ce[i + 1] as int,
            )
        &&& self.states@[ce[ce.len() - 1] as int].is_bad
    }

    /// Checks the counterexample invariants, reporting the first violation.
    pub fn verify_counterexample(&self, counterexample: &Vec<usize>) -> (r: Result<
        (),
        CounterexampleError,
    >)
        ensures
            r is Ok <==> self.is_valid_counterexample(counterexample@),
    {
        let len = counterexample.len();
        if len == 0 {
            return Err(CounterexampleError::Empty);
        }
        let mut i: usize = 0;
        while i < len
            invariant
                i <= len,
                len == counterexample@.len(),
                forall|j: int| 0 <= j < i ==> (#[trigger] counterexample@[j]) < self.states@.len(),
            decreases len - i,
        {
            if counterexample[i] >= self.states.len() {
                return Err(CounterexampleError::InvalidStateIndex { position: i });
            }
            i = i + 1;
        }
        if counterexample[0] != self.initial_state {
            return Err(CounterexampleError::DoesNotStartAtInitial);
        }
        let mut i: usize = 0;
        while i + 1 < len
            invariant
                i < len,
                len == counterexample@.len(),
                forall|j: int| 0 <= j < len ==> (#[trigger] counterexample@[j]) < self.states@.len(),
                forall|j: int|
                    0 <= j < i ==> self.states@[counterexample@[j] as int].spec_has_transition_to(
                        #[trigger] counterexample@[j + 1] as int,
                    ),
            decreases len - i,
        {
            if !self.states[counterexample[i]].has_transition_to(counterexample[i + 1]) {
                return Err(CounterexampleError::MissingTransition { position: i });
            }
            i = i + 1;
        }
        if !self.states[counterexample[len - 1]].is_bad {
            return Err(CounterexampleError::LastStateNotBad);
        }
        Ok(())
    }
}

} // verus!
