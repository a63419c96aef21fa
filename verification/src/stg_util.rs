//! State transition graph utilities: default signal names, copying names
//! from a network summary, and the textual dump of a graph.

use vstd::prelude::*;
use crate::text::{push_str, push_decimal, decimal};

verus! {

/// A state transition graph: start state, states with their transitions,
/// and optional input/output signal names.
#[derive(Clone, Debug, PartialEq)]
pub struct StgGraph {
    pub start_state: String,
    pub states: Vec<StgState>,
    pub input_names: Option<Vec<String>>,
    pub output_names: Option<Vec<String>>,
}

/// A state and its outgoing transitions.
#[derive(Clone, Debug, Eq, PartialEq)]
pub struct StgState {
    pub name: String,
    pub transitions: Vec<StgTransition>,
}

/// A transition: input pattern, output pattern and next state.
#[derive(Clone, Debug, Eq, PartialEq)]
pub struct StgTransition {
    pub input: String,
    pub output: String,
    pub next_state: String,
}

#[derive(Clone, Copy, Debug, Eq, PartialEq, Structural)]
pub enum StgSignalKind {
    Input,
    Output,
}

/// The primary inputs and outputs of a network, with its latch and clock counts.
#[derive(Clone, Debug, Eq, PartialEq)]
pub struct NetworkIoSummary {
    pub inputs: Vec<NetworkSignal>,
    pub outputs: Vec<NetworkSignal>,
    pub latch_count: usize,
    pub clock_count: usize,
}

/// A primary input or output of a network.
#[derive(Clone, Debug, Eq, PartialEq)]
pub struct NetworkSignal {
    pub name: String,
    pub is_real: bool,
    pub is_clock: bool,
    pub is_latch_endpoint: bool,
}

#[derive(Clone, Debug, Eq, PartialEq)]
pub struct SaveNameOptions {
    pub print_input_mismatch: bool,
}

/// What `save_names_from_summary` did.
#[derive(Clone, Debug, Eq, PartialEq)]
pub struct SaveNameReport {
    pub saved_inputs: bool,
    pub saved_outputs: bool,
    pub diagnostic: Option<SaveNameDiagnostic>,
}

#[derive(Clone, Debug, Eq, PartialEq)]
pub enum SaveNameDiagnostic {
    InputCountMismatch { network_count: usize, stg_count: usize, message: Option<&'static str> },
    OutputCountMismatch { network_count: usize, stg_count: usize, message: &'static str },
}

/// The layers that the network-bound operations need and this library does not hold.
#[derive(Debug, Eq, PartialEq, Structural)]
pub enum StgUtilError {
    MissingStgGraphPort,
    MissingGraphTraversalPort,
    MissingNetworkPort,
    MissingClockPort,
    MissingNodePort,
}

pub const OUTPUT_MISMATCH_MESSAGE: &'static str =
    "Number of outputs in the STG and the BLIF file do not match. Output names from the BLIF file are ignored.";
pub const INPUT_MISMATCH_MESSAGE: &'static str =
    "Number of inputs in the STG and the BLIF file do not match. Input names from the BLIF file are ignored.";

/// The views of a sequence of strings.
pub open spec fn views(s: Seq<String>) -> Seq<Seq<char>> {
    Seq::new(s.len(), |i: int| s[i]@)
}

/// The view of an optional name list.
pub open spec fn opt_views(o: Option<Vec<String>>) -> Option<Seq<Seq<char>>> {
    match o {
        Some(v) => Some(views(v@)),
        None => None,
    }
}

/// Default name number `i` with the given prefix: the prefix, '_', the number.
pub open spec fn default_name(prefix: Seq<char>, i: nat) -> Seq<char> {
    prefix + seq!['_'] + decimal(i)
}

/// The prefix of default names of a kind.
pub open spec fn kind_prefix(kind: StgSignalKind) -> Seq<char> {
    match kind {
        StgSignalKind::Input => seq!['I', 'N'],
        StgSignalKind::Output => seq!['O', 'U', 'T'],
    }
}

/// The default names of `count` signals of a kind, or none when `count` is 0.
pub open spec fn default_names(kind: StgSignalKind, count: nat) -> Option<Seq<Seq<char>>> {
    if count == 0 {
        None
    } else {
        Some(Seq::new(count, |i: int| default_name(kind_prefix(kind), i as nat)))
    }
}

/// Names of the signals that satisfy `keep`, in order.
pub open spec fn names_where(s: Seq<NetworkSignal>, keep: spec_fn(NetworkSignal) -> bool) -> Seq<Seq<char>>
    decreases s.len(),
{
    if s.len() == 0 {
        seq![]
    } else {
        let rest = names_where(s.drop_last(), keep);
        if keep(s.last()) { rest.push(s.last().name@) } else { rest }
    }
}

pub open spec fn is_real_non_clock(s: NetworkSignal) -> bool {
    s.is_real && !s.is_clock
}

pub open spec fn is_real_signal(s: NetworkSignal) -> bool {
    s.is_real
}

pub open spec fn is_not_latch_endpoint(s: NetworkSignal) -> bool {
    !s.is_latch_endpoint
}

/// Inputs minus latches minus clocks, stopping at zero.
pub open spec fn true_inputs(n: NetworkIoSummary) -> nat {
    let a: int = n.inputs@.len() - n.latch_count;
    let b: int = if a < 0 { 0 } else { a };
    let c: int = b - n.clock_count;
    if c < 0 { 0 } else { c as nat }
}

fn filtered_names(signals: &Vec<NetworkSignal>, require_real: bool, exclude_clock: bool, exclude_latch: bool) -> (r: Vec<String>)
    ensures
        require_real && exclude_clock && !exclude_latch ==> views(r@) == names_where(signals@, |s: NetworkSignal| is_real_non_clock(s)),
        require_real && !exclude_clock && !exclude_latch ==> views(r@) == names_where(signals@, |s: NetworkSignal| is_real_signal(s)),
        !require_real && !exclude_clock && exclude_latch ==> views(r@) == names_where(signals@, |s: NetworkSignal| is_not_latch_endpoint(s)),
{
    let ghost keep = if require_real && exclude_clock && !exclude_latch {
        |s: NetworkSignal| is_real_non_clock(s)
    } else if require_real && !exclude_clock && !exclude_latch {
        |s: NetworkSignal| is_real_signal(s)
    } else {
        |s: NetworkSignal| (!require_real || s.is_real) && (!exclude_clock || !s.is_clock) && (!exclude_latch || !s.is_latch_endpoint)
    };
    let mut out: Vec<String> = Vec::new();
    for i in 0..signals.len()
        invariant
            keep == if require_real && exclude_clock && !exclude_latch {
                |s: NetworkSignal| is_real_non_clock(s)
            } else if require_real && !exclude_clock && !exclude_latch {
                |s: NetworkSignal| is_real_signal(s)
            } else {
                |s: NetworkSignal| (!require_real || s.is_real) && (!exclude_clock || !s.is_clock) && (!exclude_latch || !s.is_latch_endpoint)
            },
            views(out@) == names_where(signals@.take(i as int), keep),
    {
        let sig = &signals[i];
        let ok = (!require_real || sig.is_real) && (!exclude_clock || !sig.is_clock) && (!exclude_latch || !sig.is_latch_endpoint);
        let ghost prev = out@;
        proof {
            assert(signals@.take(i + 1).drop_last() =~= signals@.take(i as int));
            assert(signals@.take(i + 1).last() == signals@[i as int]);
            assert(keep(signals@[i as int]) == ok);
        }
        if ok {
            out.push(sig.name.clone());
            assert(views(out@) =~= views(prev).push(sig.name@));
        }
    }
    assert(signals@.take(signals@.len() as int) =~= signals@);
    proof {
        if !require_real && !exclude_clock && exclude_latch {
            assert(keep =~= |s: NetworkSignal| is_not_latch_endpoint(s));
        }
    }
    out
}

impl StgGraph {
    /// A graph with the given start state, no states and no names.
    pub fn new(start_state: &str) -> (r: Self)
        ensures
            r.start_state@ == start_state@,
            r.states@.len() == 0,
            r.input_names is None,
            r.output_names is None,
    {
        StgGraph { start_state: start_state.to_owned(), states: Vec::new(), input_names: None, output_names: None }
    }

    /// The graph with one more state at the end.
    pub fn with_state(self, state: StgState) -> (r: Self)
        ensures
            r.states@ == self.states@.push(state),
            r.start_state == self.start_state,
            r.input_names == self.input_names,
            r.output_names == self.output_names,
    {
        let mut g = self;
        g.states.push(state);
        g
    }

    /// Sets the input or output names.
    pub fn set_names(&mut self, kind: StgSignalKind, names: Vec<String>)
        ensures
            kind == StgSignalKind::Input ==> final(self).input_names == Some(names) && final(self).output_names == old(self).output_names,
            kind == StgSignalKind::Output ==> final(self).output_names == Some(names) && final(self).input_names == old(self).input_names,
            final(self).states == old(self).states,
            final(self).start_state == old(self).start_state,
    {
        match kind {
            StgSignalKind::Input => self.input_names = Some(names),
            StgSignalKind::Output => self.output_names = Some(names),
        }
    }

    /// The input or output names, if set.
    pub fn names(&self, kind: StgSignalKind) -> (r: Option<&[String]>)
        ensures
            kind == StgSignalKind::Input ==> match self.input_names {
                Some(v) => r is Some && r->Some_0@ == v@,
                None => r is None,
            },
            kind == StgSignalKind::Output ==> match self.output_names {
                Some(v) => r is Some && r->Some_0@ == v@,
                None => r is None,
            },
    {
        match kind {
            StgSignalKind::Input => match &self.input_names {
                Some(v) => Some(v.as_slice()),
                None => None,
            },
            StgSignalKind::Output => match &self.output_names {
                Some(v) => Some(v.as_slice()),
                None => None,
            },
        }
    }

    /// Number of input names (0 when unset).
    pub fn input_count(&self) -> (r: usize)
        ensures
            r == match self.input_names { Some(v) => v@.len(), None => 0 },
    {
        match &self.input_names {
            Some(v) => v.len(),
            None => 0,
        }
    }

    /// Number of output names (0 when unset).
    pub fn output_count(&self) -> (r: usize)
        ensures
            r == match self.output_names { Some(v) => v@.len(), None => 0 },
    {
        match &self.output_names {
            Some(v) => v.len(),
            None => 0,
        }
    }
}

impl StgState {
    pub fn new(name: &str) -> (r: Self)
        ensures
            r.name@ == name@,
            r.transitions@.len() == 0,
    {
        StgState { name: name.to_owned(), transitions: Vec::new() }
    }

    /// The state with one more transition at the end.
    pub fn with_transition(self, transition: StgTransition) -> (r: Self)
        ensures
            r.name == self.name,
            r.transitions@ == self.transitions@.push(transition),
    {
        let mut s = self;
        s.transitions.push(transition);
        s
    }
}

impl StgTransition {
    pub fn new(input: &str, output: &str, next_state: &str) -> (r: Self)
        ensures
            r.input@ == input@,
            r.output@ == output@,
            r.next_state@ == next_state@,
    {
        StgTransition { input: input.to_owned(), output: output.to_owned(), next_state: next_state.to_owned() }
    }
}

impl NetworkIoSummary {
    pub fn empty() -> (r: Self)
        ensures
            r.inputs@.len() == 0,
            r.outputs@.len() == 0,
            r.latch_count == 0,
            r.clock_count == 0,
    {
        NetworkIoSummary { inputs: Vec::new(), outputs: Vec::new(), latch_count: 0, clock_count: 0 }
    }

    /// Names of the real inputs that are not clocks, in order.
    pub fn real_input_names_without_clocks(&self) -> (r: Vec<String>)
        ensures
            views(r@) == names_where(self.inputs@, |s: NetworkSignal| is_real_non_clock(s)),
    {
        filtered_names(&self.inputs, true, true, false)
    }

    /// Names of the real outputs, in order.
    pub fn real_output_names(&self) -> (r: Vec<String>)
        ensures
            views(r@) == names_where(self.outputs@, |s: NetworkSignal| is_real_signal(s)),
    {
        filtered_names(&self.outputs, true, false, false)
    }

    /// Inputs minus latches minus clocks, never below zero.
    pub fn true_input_count(&self) -> (r: usize)
        ensures
            r == true_inputs(*self),
    {
        self.inputs.len().saturating_sub(self.latch_count).saturating_sub(self.clock_count)
    }
}

impl NetworkSignal {
    pub fn real_signal(name: &str) -> (r: Self)
        ensures
            r.name@ == name@,
            r.is_real && !r.is_clock && !r.is_latch_endpoint,
    {
        NetworkSignal { name: name.to_owned(), is_real: true, is_clock: false, is_latch_endpoint: false }
    }

    pub fn clock(name: &str) -> (r: Self)
        ensures
            r.name@ == name@,
            r.is_real && r.is_clock && !r.is_latch_endpoint,
    {
        NetworkSignal { name: name.to_owned(), is_real: true, is_clock: true, is_latch_endpoint: false }
    }

    pub fn latch_endpoint(name: &str) -> (r: Self)
        ensures
            r.name@ == name@,
            !r.is_real && !r.is_clock && r.is_latch_endpoint,
    {
        NetworkSignal { name: name.to_owned(), is_real: false, is_clock: false, is_latch_endpoint: true }
    }
}

impl SaveNameOptions {
    /// Options that report an input-count mismatch.
    pub fn default_options() -> (r: Self)
        ensures
            r.print_input_mismatch,
    {
        SaveNameOptions { print_input_mismatch: true }
    }
}

impl Default for SaveNameOptions {
    fn default() -> (r: Self)
        ensures
            r.print_input_mismatch,
    {
        SaveNameOptions::default_options()
    }
}

/// Default names "IN_0", "IN_1", ... or "OUT_0", ...; none when `count` is 0.
pub fn assign_names(kind: StgSignalKind, count: usize) -> (r: Option<Vec<String>>)
    ensures
        opt_views(r) == default_names(kind, count as nat),
{
    if count == 0 {
        return None;
    }
    let mut names: Vec<String> = Vec::new();
    for i in 0..count
        invariant
            views(names@) == Seq::new(i as nat, |j: int| default_name(kind_prefix(kind), j as nat)),
    {
        let mut s = String::new();
        match kind {
            StgSignalKind::Input => {
                crate::text::push_char(&mut s, 'I');
                crate::text::push_char(&mut s, 'N');
            },
            StgSignalKind::Output => {
                crate::text::push_char(&mut s, 'O');
                crate::text::push_char(&mut s, 'U');
                crate::text::push_char(&mut s, 'T');
            },
        }
        crate::text::push_char(&mut s, '_');
        push_decimal(&mut s, i as u64);
        assert(s@ =~= default_name(kind_prefix(kind), i as nat));
        let ghost prev = names@;
        names.push(s);
        assert(views(names@) =~= views(prev).push(s@));
        assert(views(names@) =~= Seq::new((i + 1) as nat, |j: int| default_name(kind_prefix(kind), j as nat)));
    }
    Some(names)
}

pub fn assign_input_names(count: usize) -> (r: Option<Vec<String>>)
    ensures
        opt_views(r) == default_names(StgSignalKind::Input, count as nat),
{
    assign_names(StgSignalKind::Input, count)
}

pub fn assign_output_names(count: usize) -> (r: Option<Vec<String>>)
    ensures
        opt_views(r) == default_names(StgSignalKind::Output, count as nat),
{
    assign_names(StgSignalKind::Output, count)
}

/// Copies output and then input names into the graph, for each kind only when
/// the graph has none yet: from the network when its count matches the
/// graph's, as defaults when the network has none; a mismatch stops with a
/// diagnostic.
pub fn save_names_from_summary(
    network: &NetworkIoSummary,
    stg: &mut StgGraph,
    stg_input_count: usize,
    stg_output_count: usize,
    options: SaveNameOptions,
) -> (r: SaveNameReport)
    ensures
        final(stg).states == old(stg).states,
        final(stg).start_state == old(stg).start_state,
        ({
            let outs = names_where(network.outputs@, |s: NetworkSignal| is_real_signal(s));
            let ins = names_where(network.inputs@, |s: NetworkSignal| is_real_non_clock(s));
            let nin = true_inputs(*network);
            let out_mismatch = old(stg).output_names is None && outs.len() != 0 && outs.len() != stg_output_count;
            let in_mismatch = old(stg).input_names is None && nin != 0 && nin != stg_input_count;
            let saved_outputs = old(stg).output_names is None && (outs.len() != 0 || stg_output_count != 0);
            if out_mismatch {
                &&& r == (SaveNameReport {
                    saved_inputs: false,
                    saved_outputs: false,
                    diagnostic: Some(SaveNameDiagnostic::OutputCountMismatch {
                        network_count: outs.len() as usize,
                        stg_count: stg_output_count,
                        message: OUTPUT_MISMATCH_MESSAGE,
                    }),
                })
                &&& final(stg).output_names == old(stg).output_names
                &&& final(stg).input_names == old(stg).input_names
            } else {
                &&& old(stg).output_names is Some ==> final(stg).output_names == old(stg).output_names
                &&& old(stg).output_names is None ==> opt_views(final(stg).output_names) == if outs.len() == 0 {
                    default_names(StgSignalKind::Output, stg_output_count as nat)
                } else {
                    Some(outs)
                }
                &&& if in_mismatch {
                    &&& r == (SaveNameReport {
                        saved_inputs: false,
                        saved_outputs,
                        diagnostic: Some(SaveNameDiagnostic::InputCountMismatch {
                            network_count: nin as usize,
                            stg_count: stg_input_count,
                            message: if options.print_input_mismatch { Some(INPUT_MISMATCH_MESSAGE) } else { None },
                        }),
                    })
                    &&& final(stg).input_names == old(stg).input_names
                } else {
                    &&& r == (SaveNameReport {
                        saved_inputs: old(stg).input_names is None && (nin != 0 || stg_input_count != 0),
                        saved_outputs,
                        diagnostic: None,
                    })
                    &&& old(stg).input_names is Some ==> final(stg).input_names == old(stg).input_names
                    &&& old(stg).input_names is None ==> opt_views(final(stg).input_names) == if nin == 0 {
                        default_names(StgSignalKind::Input, stg_input_count as nat)
                    } else {
                        Some(ins)
                    }
                }
            }
        }),
{
    let mut saved_outputs = false;
    let mut saved_inputs = false;

    if stg.output_names.is_none() {
        let network_outputs = network.real_output_names();
        if network_outputs.len() == 0 {
            stg.output_names = assign_output_names(stg_output_count);
            saved_outputs = stg.output_names.is_some();
        } else if network_outputs.len() != stg_output_count {
            return SaveNameReport {
                saved_inputs,
                saved_outputs,
                diagnostic: Some(SaveNameDiagnostic::OutputCountMismatch {
                    network_count: network_outputs.len(),
                    stg_count: stg_output_count,
                    message: OUTPUT_MISMATCH_MESSAGE,
                }),
            };
        } else {
            stg.output_names = Some(network_outputs);
            saved_outputs = true;
        }
    }

    if stg.input_names.is_none() {
        let network_input_count = network.true_input_count();
        if network_input_count == 0 {
            stg.input_names = assign_input_names(stg_input_count);
            saved_inputs = stg.input_names.is_some();
        } else if network_input_count != stg_input_count {
            return SaveNameReport {
                saved_inputs,
                saved_outputs,
                diagnostic: Some(SaveNameDiagnostic::InputCountMismatch {
                    network_count: network_input_count,
                    stg_count: stg_input_count,
                    message: if options.print_input_mismatch { Some(INPUT_MISMATCH_MESSAGE) } else { None },
                }),
            };
        } else {
            stg.input_names = Some(network.real_input_names_without_clocks());
            saved_inputs = true;
        }
    }

    SaveNameReport { saved_inputs, saved_outputs, diagnostic: None }
}

/// Text of the names of the signals that are not latch endpoints, each
/// followed by two spaces.
pub open spec fn io_list_text(s: Seq<NetworkSignal>) -> Seq<char>
    decreases s.len(),
{
    if s.len() == 0 {
        seq![]
    } else {
        io_list_text(s.drop_last()) + if s.last().is_latch_endpoint {
            seq![]
        } else {
            s.last().name@ + seq![' ', ' ']
        }
    }
}

/// One line per transition of a state: state, input, output, next state.
pub open spec fn state_lines(name: Seq<char>, ts: Seq<StgTransition>) -> Seq<char>
    decreases ts.len(),
{
    if ts.len() == 0 {
        seq![]
    } else {
        state_lines(name, ts.drop_last()) + name + seq![' '] + ts.last().input@ + seq![' ']
            + ts.last().output@ + seq![' '] + ts.last().next_state@ + seq!['\n']
    }
}

/// The transition lines of all states, in order.
pub open spec fn graph_lines(states: Seq<StgState>) -> Seq<char>
    decreases states.len(),
{
    if states.len() == 0 {
        seq![]
    } else {
        graph_lines(states.drop_last()) + state_lines(states.last().name@, states.last().transitions@)
    }
}

/// The text of `dump_graph`.
pub open spec fn dump_text(graph: Option<StgGraph>, network: Option<NetworkIoSummary>) -> Seq<char> {
    match graph {
        None => "NIL stg\n"@,
        Some(g) => "\nInitial state "@ + g.start_state@ + "\n"@ + match network {
            None => seq![],
            Some(n) => "PI list: "@ + io_list_text(n.inputs@) + "\nPO list: "@ + io_list_text(n.outputs@) + "\n"@,
        } + "PresentState input  output NextState\n"@ + graph_lines(g.states@) + "\n"@,
    }
}

fn push_io_list(text: &mut String, signals: &Vec<NetworkSignal>)
    ensures
        final(text)@ == old(text)@ + io_list_text(signals@),
{
    let ghost start = text@;
    for i in 0..signals.len()
        invariant
            text@ == start + io_list_text(signals@.take(i as int)),
    {
        proof {
            assert(signals@.take(i + 1).drop_last() =~= signals@.take(i as int));
        }
        if !signals[i].is_latch_endpoint {
            push_str(text, signals[i].name.as_str());
            crate::text::push_char(text, ' ');
            crate::text::push_char(text, ' ');
        }
        assert(text@ =~= start + io_list_text(signals@.take(i + 1)));
    }
    assert(signals@.take(signals@.len() as int) =~= signals@);
}

fn push_state_lines(text: &mut String, state: &StgState)
    ensures
        final(text)@ == old(text)@ + state_lines(state.name@, state.transitions@),
{
    let ghost start = text@;
    let ts = &state.transitions;
    for i in 0..ts.len()
        invariant
            ts == &state.transitions,
            text@ == start + state_lines(state.name@, ts@.take(i as int)),
    {
        proof {
            assert(ts@.take(i + 1).drop_last() =~= ts@.take(i as int));
        }
        let t = &ts[i];
        push_str(text, state.name.as_str());
        crate::text::push_char(text, ' ');
        push_str(text, t.input.as_str());
        crate::text::push_char(text, ' ');
        push_str(text, t.output.as_str());
        crate::text::push_char(text, ' ');
        push_str(text, t.next_state.as_str());
        crate::text::push_char(text, '\n');
        assert(text@ =~= start + state_lines(state.name@, ts@.take(i + 1)));
    }
    assert(ts@.take(ts@.len() as int) =~= ts@);
}

/// The text dump of a graph: start state, the network's non-latch inputs and
/// outputs when given, then one line per transition.
pub fn dump_graph(graph: Option<&StgGraph>, network: Option<&NetworkIoSummary>) -> (r: String)
    ensures
        r@ == dump_text(
            match graph { Some(g) => Some(*g), None => None },
            match network { Some(n) => Some(*n), None => None },
        ),
{
    let graph = match graph {
        None => {
            let mut t = String::new();
            push_str(&mut t, "NIL stg\n");
            return t;
        },
        Some(g) => g,
    };
    let mut text = String::new();
    push_str(&mut text, "\nInitial state ");
    push_str(&mut text, graph.start_state.as_str());
    push_str(&mut text, "\n");
    let ghost head = text@;
    match network {
        Some(n) => {
            push_str(&mut text, "PI list: ");
            push_io_list(&mut text, &n.inputs);
            push_str(&mut text, "\nPO list: ");
            push_io_list(&mut text, &n.outputs);
            push_str(&mut text, "\n");
        },
        None => {},
    }
    push_str(&mut text, "PresentState input  output NextState\n");
    let ghost before_lines = text@;
    for i in 0..graph.states.len()
        invariant
            text@ == before_lines + graph_lines(graph.states@.take(i as int)),
    {
        proof {
            assert(graph.states@.take(i + 1).drop_last() =~= graph.states@.take(i as int));
        }
        push_state_lines(&mut text, &graph.states[i]);
        assert(text@ =~= before_lines + graph_lines(graph.states@.take(i + 1)));
    }
    assert(graph.states@.take(graph.states@.len() as int) =~= graph.states@);
    push_str(&mut text, "\n");
    assert(text@ =~= dump_text(Some(*graph), match network { Some(n) => Some(*n), None => None }));
    text
}

pub fn save_names_from_sis_network() -> (r: Result<(), StgUtilError>)
    ensures
        r == Err::<(), StgUtilError>(StgUtilError::MissingNetworkPort),
{
    Err(StgUtilError::MissingNetworkPort)
}

pub fn set_sis_network_pipo_names() -> (r: Result<(), StgUtilError>)
    ensures
        r == Err::<(), StgUtilError>(StgUtilError::MissingNetworkPort),
{
    Err(StgUtilError::MissingNetworkPort)
}

pub fn change_sis_dc_node_name() -> (r: Result<(), StgUtilError>)
    ensures
        r == Err::<(), StgUtilError>(StgUtilError::MissingNodePort),
{
    Err(StgUtilError::MissingNodePort)
}

pub fn traverse_sis_stg_graph() -> (r: Result<(), StgUtilError>)
    ensures
        r == Err::<(), StgUtilError>(StgUtilError::MissingGraphTraversalPort),
{
    Err(StgUtilError::MissingGraphTraversalPort)
}

} // verus!
