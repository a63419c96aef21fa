//! A state transition graph with encoded states, as used by the STG
//! commands: states with optional names and encodings, a start state, and
//! transitions labelled with input and output patterns.

use vstd::prelude::*;
use vstd::string::StrSliceExecFns;

verus! {

/// The index of a state.
#[derive(Clone, Copy, Debug, Eq, PartialEq, Hash, Structural)]
pub struct StateId(pub usize);

/// A transition between two states.
#[derive(Clone, Debug, Eq, PartialEq)]
pub struct Transition {
    pub from: StateId,
    pub to: StateId,
    pub input: String,
    pub output: String,
}

/// Errors of graph updates.
#[derive(Clone, Debug, Eq, PartialEq)]
pub enum StgError {
    UnknownState(StateId),
    InputWidth { expected: usize, actual: usize },
    OutputWidth { expected: usize, actual: usize },
}

#[derive(Clone, Debug, Eq, PartialEq)]
struct StateRecord {
    name: Option<String>,
    encoding: Option<String>,
}

/// The view of an optional string.
pub open spec fn opt_text(o: Option<String>) -> Option<Seq<char>> {
    match o {
        Some(s) => Some(s@),
        None => None,
    }
}

/// A state transition graph.
#[derive(Debug, Eq, PartialEq)]
pub struct Stg {
    num_inputs: usize,
    num_outputs: usize,
    start: Option<StateId>,
    states: Vec<StateRecord>,
    transitions: Vec<Transition>,
}

impl Stg {
    pub closed spec fn spec_num_inputs(&self) -> nat {
        self.num_inputs as nat
    }

    pub closed spec fn spec_num_outputs(&self) -> nat {
        self.num_outputs as nat
    }

    pub closed spec fn spec_start(&self) -> Option<StateId> {
        self.start
    }

    /// The name of each state.
    pub closed spec fn spec_names(&self) -> Seq<Option<Seq<char>>> {
        self.states@.map_values(|r: StateRecord| opt_text(r.name))
    }

    /// The encoding of each state.
    pub closed spec fn spec_encodings(&self) -> Seq<Option<Seq<char>>> {
        self.states@.map_values(|r: StateRecord| opt_text(r.encoding))
    }

    /// The transitions, in creation order.
    pub closed spec fn spec_transitions(&self) -> Seq<Transition> {
        self.transitions@
    }

    /// A graph with no states for the given numbers of inputs and outputs.
    pub fn with_dimensions(num_inputs: usize, num_outputs: usize) -> (r: Self)
        ensures
            r.spec_num_inputs() == num_inputs,
            r.spec_num_outputs() == num_outputs,
            r.spec_start() is None,
            r.spec_encodings().len() == 0,
            r.spec_names().len() == 0,
            r.spec_transitions().len() == 0,
    {
        let r = Stg { num_inputs, num_outputs, start: None, states: Vec::new(), transitions: Vec::new() };
        assert(r.spec_encodings() =~= Seq::<Option<Seq<char>>>::empty());
        assert(r.spec_names() =~= Seq::<Option<Seq<char>>>::empty());
        r
    }

    pub fn num_inputs(&self) -> (r: usize)
        ensures
            r == self.spec_num_inputs(),
    {
        self.num_inputs
    }

    pub fn num_outputs(&self) -> (r: usize)
        ensures
            r == self.spec_num_outputs(),
    {
        self.num_outputs
    }

    pub fn num_states(&self) -> (r: usize)
        ensures
            r == self.spec_encodings().len(),
            r == self.spec_names().len(),
    {
        self.states.len()
    }

    pub fn start(&self) -> (r: Option<StateId>)
        ensures
            r == self.spec_start(),
    {
        self.start
    }

    /// Adds a state with an optional name and encoding; returns its index.
    pub fn create_state(&mut self, name: Option<&str>, encoding: Option<&str>) -> (r: StateId)
        ensures
            r.0 == old(self).spec_encodings().len(),
            final(self).spec_names() == old(self).spec_names().push(match name { Some(n) => Some(n@), None => None }),
            final(self).spec_encodings() == old(self).spec_encodings().push(match encoding { Some(e) => Some(e@), None => None }),
            final(self).spec_start() == old(self).spec_start(),
            final(self).spec_transitions() == old(self).spec_transitions(),
            final(self).spec_num_inputs() == old(self).spec_num_inputs(),
            final(self).spec_num_outputs() == old(self).spec_num_outputs(),
    {
        let id = StateId(self.states.len());
        let record = StateRecord {
            name: match name { Some(n) => Some(n.to_owned()), None => None },
            encoding: match encoding { Some(e) => Some(e.to_owned()), None => None },
        };
        let ghost old_names = self.spec_names();
        let ghost old_encodings = self.spec_encodings();
        self.states.push(record);
        assert(self.spec_names() =~= old_names.push(match name { Some(n) => Some(n@), None => None }));
        assert(self.spec_encodings() =~= old_encodings.push(match encoding { Some(e) => Some(e@), None => None }));
        id
    }

    /// Makes `state` the start state.
    pub fn set_start(&mut self, state: StateId) -> (r: Result<(), StgError>)
        ensures
            state.0 < old(self).spec_encodings().len() ==> r is Ok && final(self).spec_start() == Some(state),
            state.0 >= old(self).spec_encodings().len() ==> r == Err::<(), StgError>(StgError::UnknownState(state))
                && final(self).spec_start() == old(self).spec_start(),
            final(self).spec_names() == old(self).spec_names(),
            final(self).spec_encodings() == old(self).spec_encodings(),
            final(self).spec_transitions() == old(self).spec_transitions(),
            final(self).spec_num_inputs() == old(self).spec_num_inputs(),
            final(self).spec_num_outputs() == old(self).spec_num_outputs(),
    {
        if state.0 >= self.states.len() {
            return Err(StgError::UnknownState(state));
        }
        self.start = Some(state);
        Ok(())
    }

    /// Adds a transition; both states must exist and the patterns must have
    /// one character per input and per output.
    pub fn create_transition(&mut self, from: StateId, to: StateId, input: &str, output: &str) -> (r: Result<(), StgError>)
        ensures
            r is Ok <==> (from.0 < old(self).spec_encodings().len() && to.0 < old(self).spec_encodings().len()
                && input@.len() == old(self).spec_num_inputs() && output@.len() == old(self).spec_num_outputs()),
            r is Ok ==> final(self).spec_transitions().len() == old(self).spec_transitions().len() + 1
                && final(self).spec_transitions().drop_last() == old(self).spec_transitions()
                && final(self).spec_transitions().last().from == from
                && final(self).spec_transitions().last().to == to
                && final(self).spec_transitions().last().input@ == input@
                && final(self).spec_transitions().last().output@ == output@,
            r is Err ==> final(self).spec_transitions() == old(self).spec_transitions(),
            from.0 >= old(self).spec_encodings().len() ==> r == Err::<(), StgError>(StgError::UnknownState(from)),
            final(self).spec_names() == old(self).spec_names(),
            final(self).spec_encodings() == old(self).spec_encodings(),
            final(self).spec_start() == old(self).spec_start(),
            final(self).spec_num_inputs() == old(self).spec_num_inputs(),
            final(self).spec_num_outputs() == old(self).spec_num_outputs(),
    {
        if from.0 >= self.states.len() {
            return Err(StgError::UnknownState(from));
        }
        if to.0 >= self.states.len() {
            return Err(StgError::UnknownState(to));
        }
        let in_len = input.unicode_len();
        if in_len != self.num_inputs {
            return Err(StgError::InputWidth { expected: self.num_inputs, actual: in_len });
        }
        let out_len = output.unicode_len();
        if out_len != self.num_outputs {
            return Err(StgError::OutputWidth { expected: self.num_outputs, actual: out_len });
        }
        let t = Transition { from, to, input: input.to_owned(), output: output.to_owned() };
        let ghost old_t = self.transitions@;
        self.transitions.push(t);
        assert(self.spec_transitions().drop_last() =~= old_t);
        Ok(())
    }

    /// The encoding of a state, if the state exists and has one.
    pub fn state_encoding(&self, state: StateId) -> (r: Option<&str>)
        ensures
            state.0 < self.spec_encodings().len() ==> match self.spec_encodings()[state.0 as int] {
                Some(e) => r is Some && r->Some_0@ == e,
                None => r is None,
            },
            state.0 >= self.spec_encodings().len() ==> r is None,
    {
        if state.0 >= self.states.len() {
            return None;
        }
        match &self.states[state.0].encoding {
            Some(e) => Some(e.as_str()),
            None => None,
        }
    }

    /// The name of a state, if the state exists and has one.
    pub fn state_name(&self, state: StateId) -> (r: Option<&str>)
        ensures
            state.0 < self.spec_names().len() ==> match self.spec_names()[state.0 as int] {
                Some(e) => r is Some && r->Some_0@ == e,
                None => r is None,
            },
            state.0 >= self.spec_names().len() ==> r is None,
    {
        if state.0 >= self.states.len() {
            return None;
        }
        match &self.states[state.0].name {
            Some(e) => Some(e.as_str()),
            None => None,
        }
    }

    /// Replaces the encoding of an existing state.
    pub fn set_state_encoding(&mut self, state: StateId, code: String) -> (r: Result<(), StgError>)
        ensures
            state.0 < old(self).spec_encodings().len() ==> r is Ok
                && final(self).spec_encodings() == old(self).spec_encodings().update(state.0 as int, Some(code@)),
            state.0 >= old(self).spec_encodings().len() ==> r == Err::<(), StgError>(StgError::UnknownState(state))
                && final(self).spec_encodings() == old(self).spec_encodings(),
            final(self).spec_names() == old(self).spec_names(),
            final(self).spec_start() == old(self).spec_start(),
            final(self).spec_transitions() == old(self).spec_transitions(),
            final(self).spec_num_inputs() == old(self).spec_num_inputs(),
            final(self).spec_num_outputs() == old(self).spec_num_outputs(),
    {
        if state.0 >= self.states.len() {
            return Err(StgError::UnknownState(state));
        }
        let ghost old_names = self.spec_names();
        let ghost old_enc = self.spec_encodings();
        let name = self.states[state.0].name.clone();
        let ghost old_states = self.states@;
        self.states.set(state.0, StateRecord { name, encoding: Some(code) });
        assert(self.states@[state.0 as int].name == old_states[state.0 as int].name);
        assert(self.spec_names() =~= old_names);
        assert(self.spec_encodings() =~= old_enc.update(state.0 as int, Some(code@)));
        Ok(())
    }

    /// The transitions in creation order.
    pub fn transitions(&self) -> (r: &[Transition])
        ensures
            r@ == self.spec_transitions(),
    {
        self.transitions.as_slice()
    }
}

} // verus!
