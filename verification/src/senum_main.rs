//! Setup of state-graph extraction: the clocking checks on the network, the
//! counts and initial state that extraction starts from, and the removal of
//! the clock's control logic.

use vstd::prelude::*;
use crate::text::{push_str, push_char, push_decimal, push_signed_decimal, decimal, signed_decimal, str_eq};

verus! {

#[derive(Clone, Copy, Debug, Eq, PartialEq, Structural)]
pub enum ExtractionMode {
    InitialStateOnly,
    CompleteStateTable,
}

#[derive(Clone, Copy, Debug, Eq, PartialEq, Structural)]
pub enum NodeKind {
    PrimaryInput,
    PrimaryOutput,
    Internal,
}

#[derive(Clone, Copy, Debug, Eq, PartialEq, Structural)]
pub enum InputPhase {
    PositiveUnate,
    NegativeUnate,
    Binate,
    Unknown,
}

/// The clock that drives a control node, and the phase it drives it with.
#[derive(Clone, Debug, Eq, PartialEq)]
pub struct ClockRelation {
    pub clock_name: String,
    pub phase: InputPhase,
}

#[derive(Clone, Debug, Eq, PartialEq)]
pub struct NetworkNode {
    pub name: String,
    pub kind: NodeKind,
    pub is_control: bool,
    pub transitive_fanin: Vec<usize>,
    pub transitive_fanout: Vec<usize>,
    pub clock_relation: Option<ClockRelation>,
    pub deleted: bool,
}

impl NetworkNode {
    pub fn new(name: &str, kind: NodeKind) -> (r: Self)
        ensures
            r.name@ == name@,
            r.kind == kind,
            !r.is_control,
            r.transitive_fanin@.len() == 0,
            r.transitive_fanout@.len() == 0,
            r.clock_relation is None,
            !r.deleted,
    {
        NetworkNode {
            name: name.to_owned(),
            kind,
            is_control: false,
            transitive_fanin: Vec::new(),
            transitive_fanout: Vec::new(),
            clock_relation: None,
            deleted: false,
        }
    }
}

#[derive(Clone, Copy, Debug, Eq, PartialEq, Structural)]
pub enum LatchSynchType {
    Unknown,
    RisingEdge,
    FallingEdge,
    ActiveHigh,
    ActiveLow,
}

impl LatchSynchType {
    pub open spec fn edge_or_unknown(self) -> bool {
        self == LatchSynchType::Unknown || self == LatchSynchType::RisingEdge || self == LatchSynchType::FallingEdge
    }

    pub open spec fn edge_number(self) -> i32 {
        match self {
            LatchSynchType::RisingEdge => 0,
            LatchSynchType::FallingEdge => 1,
            _ => -1i32,
        }
    }

    pub fn is_edge_or_unknown(self) -> (r: bool)
        ensures
            r == self.edge_or_unknown(),
    {
        match self {
            LatchSynchType::Unknown | LatchSynchType::RisingEdge | LatchSynchType::FallingEdge => true,
            _ => false,
        }
    }

    pub fn edge_index(self) -> (r: i32)
        ensures
            r == self.edge_number(),
    {
        match self {
            LatchSynchType::RisingEdge => 0,
            LatchSynchType::FallingEdge => 1,
            _ => -1,
        }
    }
}

#[derive(Clone, Copy, Debug, Eq, PartialEq)]
pub struct SenumLatch {
    pub control: Option<usize>,
    pub synch_type: LatchSynchType,
    pub initial_value: i32,
}

/// The network as extraction sees it: nodes, latches, the names of its
/// clocks, and its counts of primary inputs, primary outputs and internal
/// nodes (latch outputs and inputs included).
#[derive(Clone, Debug, Eq, PartialEq)]
pub struct SenumNetwork {
    pub nodes: Vec<NetworkNode>,
    pub latches: Vec<SenumLatch>,
    pub clock_names: Vec<String>,
    pub primary_input_count: usize,
    pub primary_output_count: usize,
    pub internal_count: usize,
}

/// The first live node named `name`.
pub open spec fn node_named(nodes: Seq<NetworkNode>, name: Seq<char>, k: nat) -> Option<usize>
    decreases k,
{
    if k == 0 {
        None
    } else {
        match node_named(nodes, name, (k - 1) as nat) {
            Some(i) => Some(i),
            None => if !nodes[k - 1].deleted && nodes[k - 1].name@ == name { Some((k - 1) as usize) } else { None },
        }
    }
}

proof fn lemma_node_named_stays(nodes: Seq<NetworkNode>, name: Seq<char>, k: nat, m: nat)
    requires
        k <= m,
        node_named(nodes, name, k) is Some,
    ensures
        node_named(nodes, name, m) == node_named(nodes, name, k),
    decreases m - k,
{
    if k < m {
        lemma_node_named_stays(nodes, name, k, (m - 1) as nat);
    }
}

proof fn lemma_node_named_range(nodes: Seq<NetworkNode>, name: Seq<char>, k: nat)
    ensures
        node_named(nodes, name, k) matches Some(i) ==> i < k,
    decreases k,
{
    if k > 0 {
        lemma_node_named_range(nodes, name, (k - 1) as nat);
    }
}

impl SenumNetwork {
    pub fn new(
        nodes: Vec<NetworkNode>,
        latches: Vec<SenumLatch>,
        clock_names: Vec<String>,
        primary_input_count: usize,
        primary_output_count: usize,
        internal_count: usize,
    ) -> (r: Self)
        ensures
            r == (SenumNetwork { nodes, latches, clock_names, primary_input_count, primary_output_count, internal_count }),
    {
        SenumNetwork { nodes, latches, clock_names, primary_input_count, primary_output_count, internal_count }
    }

    /// The first live node named `name`.
    pub fn find_node_by_name(&self, name: &str) -> (r: Option<usize>)
        ensures
            r == node_named(self.nodes@, name@, self.nodes@.len()),
    {
        for i in 0..self.nodes.len()
            invariant
                node_named(self.nodes@, name@, i as nat) is None,
        {
            if !self.nodes[i].deleted && str_eq(self.nodes[i].name.as_str(), name) {
                proof {
                    lemma_node_named_stays(self.nodes@, name@, (i + 1) as nat, self.nodes@.len());
                }
                return Some(i);
            }
        }
        None
    }
}

#[derive(Clone, Debug, Eq, PartialEq)]
pub struct ValidNetwork {
    pub control_node: Option<usize>,
    pub clock_name: Option<String>,
    pub edge_index: i32,
}

#[derive(Clone, Debug, Eq, PartialEq)]
pub enum SenumError {
    MultipleClocks,
    UnknownNode { node: usize },
    DifferentLatchControls { first: usize, second: usize },
    NonEdgeTriggeredLatch { latch: usize, synch_type: LatchSynchType },
    DifferentLatchTypes { first: LatchSynchType, second: LatchSynchType },
    GatedClock { node: usize },
    MissingTransitiveClock { control: usize },
    BinateClockControlPhase,
    ClockNodeNotFound(String),
    ClockPathToPoOrLatchInput { node: usize },
    NonBinaryInitialState { latch: usize, value: i32 },
    UnknownLatchInitialValue { latch: usize, value: i32 },
    InvalidNetworkCounts { primary_inputs: usize, primary_outputs: usize, latches: usize },
    MissingExtractionDependencies { dependencies: usize },
}

/// Whether `node` is a live node of the network.
pub open spec fn node_ok(nodes: Seq<NetworkNode>, node: usize) -> bool {
    node < nodes.len() && !nodes[node as int].deleted
}

/// The latch checks over the first `k` latches: all controlled latches
/// share one live control node, and all are edge-triggered (or of unknown
/// type) of one edge. Gives the control node and the edge found.
pub open spec fn latch_scan(nodes: Seq<NetworkNode>, latches: Seq<SenumLatch>, k: nat) -> Result<(Option<usize>, LatchSynchType), SenumError>
    decreases k,
{
    if k == 0 {
        Ok((None, LatchSynchType::Unknown))
    } else {
        match latch_scan(nodes, latches, (k - 1) as nat) {
            Err(e) => Err(e),
            Ok((control, latch_type)) => {
                let latch = latches[k - 1];
                let c1: Result<Option<usize>, SenumError> = match latch.control {
                    None => Ok(control),
                    Some(c) => if !node_ok(nodes, c) {
                        Err(SenumError::UnknownNode { node: c })
                    } else {
                        match control {
                            None => Ok(Some(c)),
                            Some(e) => if e != c {
                                Err(SenumError::DifferentLatchControls { first: e, second: c })
                            } else {
                                Ok(control)
                            },
                        }
                    },
                };
                match c1 {
                    Err(e) => Err(e),
                    Ok(control) => {
                        let t = latch.synch_type;
                        if !t.edge_or_unknown() {
                            Err(SenumError::NonEdgeTriggeredLatch { latch: (k - 1) as usize, synch_type: t })
                        } else if latch_type != LatchSynchType::Unknown && latch_type != t {
                            Err(SenumError::DifferentLatchTypes { first: latch_type, second: t })
                        } else if t == LatchSynchType::RisingEdge || t == LatchSynchType::FallingEdge {
                            Ok((control, t))
                        } else {
                            Ok((control, latch_type))
                        }
                    },
                }
            },
        }
    }
}

/// Whether `name` is the name of a clock.
pub open spec fn is_clock_name(clocks: Seq<String>, name: Seq<char>) -> bool {
    exists|i: int| 0 <= i < clocks.len() && #[trigger] clocks[i]@ == name
}

/// The first of the first `k` fanins of the control that is not a live
/// node, or is a primary input other than a clock.
pub open spec fn gated_scan(nodes: Seq<NetworkNode>, clocks: Seq<String>, fanins: Seq<usize>, k: nat) -> Option<SenumError>
    decreases k,
{
    if k == 0 {
        None
    } else {
        match gated_scan(nodes, clocks, fanins, (k - 1) as nat) {
            Some(e) => Some(e),
            None => {
                let f = fanins[k - 1];
                if !node_ok(nodes, f) {
                    Some(SenumError::UnknownNode { node: f })
                } else if nodes[f as int].kind == NodeKind::PrimaryInput && !is_clock_name(clocks, nodes[f as int].name@) {
                    Some(SenumError::GatedClock { node: f })
                } else {
                    None
                }
            },
        }
    }
}

/// The first of the first `k` fanouts of the clock that is not a live
/// node, or is a primary output other than a control.
pub open spec fn fanout_scan(nodes: Seq<NetworkNode>, fanouts: Seq<usize>, k: nat) -> Option<SenumError>
    decreases k,
{
    if k == 0 {
        None
    } else {
        match fanout_scan(nodes, fanouts, (k - 1) as nat) {
            Some(e) => Some(e),
            None => {
                let f = fanouts[k - 1];
                if !node_ok(nodes, f) {
                    Some(SenumError::UnknownNode { node: f })
                } else if nodes[f as int].kind == NodeKind::PrimaryOutput && !nodes[f as int].is_control {
                    Some(SenumError::ClockPathToPoOrLatchInput { node: f })
                } else {
                    None
                }
            },
        }
    }
}

/// The edge a latch triggers on once the clock's phase to its control is
/// applied: a negative phase swaps the edge.
pub open spec fn phased(latch_type: LatchSynchType, phase: InputPhase) -> Result<LatchSynchType, SenumError> {
    match phase {
        InputPhase::NegativeUnate => Ok(
            if latch_type == LatchSynchType::RisingEdge { LatchSynchType::FallingEdge } else { LatchSynchType::RisingEdge },
        ),
        InputPhase::Binate => Err(SenumError::BinateClockControlPhase),
        _ => Ok(latch_type),
    }
}

/// The checks of the clocking of a network, in order (see
/// [`validate_network`]).
pub open spec fn validation(net: SenumNetwork) -> Result<ValidNetwork, SenumError> {
    let nodes = net.nodes@;
    let clocks = net.clock_names@;
    if clocks.len() > 1 {
        Err(SenumError::MultipleClocks)
    } else {
        match latch_scan(nodes, net.latches@, net.latches@.len()) {
            Err(e) => Err(e),
            Ok((control, latch_type)) => match control {
                Some(c) => {
                    let data = nodes[c as int];
                    match gated_scan(nodes, clocks, data.transitive_fanin@, data.transitive_fanin@.len()) {
                        Some(e) => Err(e),
                        None => match data.clock_relation {
                            None => Err(SenumError::MissingTransitiveClock { control: c }),
                            Some(rel) => match phased(latch_type, rel.phase) {
                                Err(e) => Err(e),
                                Ok(t) => Ok(ValidNetwork { control_node: Some(c), clock_name: Some(rel.clock_name), edge_index: t.edge_number() }),
                            },
                        },
                    }
                },
                None => if clocks.len() == 1 {
                    match node_named(nodes, clocks[0]@, nodes.len()) {
                        None => Err(SenumError::ClockNodeNotFound(clocks[0])),
                        Some(k) => match fanout_scan(nodes, nodes[k as int].transitive_fanout@, nodes[k as int].transitive_fanout@.len()) {
                            Some(e) => Err(e),
                            None => Ok(ValidNetwork { control_node: None, clock_name: None, edge_index: -1i32 }),
                        },
                    }
                } else {
                    Ok(ValidNetwork { control_node: None, clock_name: None, edge_index: -1i32 })
                },
            },
        }
    }
}


/// The live node `node`.
fn require_node(network: &SenumNetwork, node: usize) -> (r: Result<&NetworkNode, SenumError>)
    ensures
        node_ok(network.nodes@, node) ==> r == Ok::<&NetworkNode, SenumError>(&network.nodes@[node as int]),
        !node_ok(network.nodes@, node) ==> r == Err::<&NetworkNode, SenumError>(SenumError::UnknownNode { node }),
{
    if node < network.nodes.len() && !network.nodes[node].deleted {
        Ok(&network.nodes[node])
    } else {
        Err(SenumError::UnknownNode { node })
    }
}

/// A clock reaching the latch control inverted swaps the trigger edge, both
/// ways, and swapping twice gives the edge back; a clock reaching it
/// uninverted keeps the edge.
pub proof fn lemma_negative_phase_swaps_edge(t: LatchSynchType)
    requires
        t == LatchSynchType::RisingEdge || t == LatchSynchType::FallingEdge,
    ensures
        phased(t, InputPhase::NegativeUnate) matches Ok(u) && u != t
            && (u == LatchSynchType::RisingEdge || u == LatchSynchType::FallingEdge)
            && u.edge_number() == 1 - t.edge_number()
            && phased(u, InputPhase::NegativeUnate) == Ok::<LatchSynchType, SenumError>(t),
        phased(t, InputPhase::PositiveUnate) == Ok::<LatchSynchType, SenumError>(t),
{
}

pub open spec fn is_edge(t: LatchSynchType) -> bool {
    t == LatchSynchType::RisingEdge || t == LatchSynchType::FallingEdge
}

proof fn lemma_latch_scan_type(nodes: Seq<NetworkNode>, latches: Seq<SenumLatch>, k: nat)
    requires
        k <= latches.len(),
    ensures
        latch_scan(nodes, latches, k) matches Ok((c, t)) ==> (t == LatchSynchType::Unknown || is_edge(t))
            && forall|i: int| 0 <= i < k && is_edge(#[trigger] latches[i].synch_type) ==> latches[i].synch_type == t,
    decreases k,
{
    if k > 0 {
        lemma_latch_scan_type(nodes, latches, (k - 1) as nat);
    }
}

/// With the clock reaching the latch control inverted, the edge the
/// network is enumerated on is the opposite of its latches' edge.
pub proof fn lemma_validation_inverted_clock(net: SenumNetwork, i: int)
    requires
        0 <= i < net.latches@.len(),
        is_edge(net.latches@[i].synch_type),
    ensures
        match validation(net) {
            Ok(v) => match v.control_node {
                Some(c) => match net.nodes@[c as int].clock_relation {
                    Some(rel) => {
                        &&& rel.phase == InputPhase::NegativeUnate ==> v.edge_index == 1 - net.latches@[i].synch_type.edge_number()
                        &&& rel.phase == InputPhase::PositiveUnate ==> v.edge_index == net.latches@[i].synch_type.edge_number()
                    },
                    None => true,
                },
                None => true,
            },
            Err(_) => true,
        },
{
    lemma_latch_scan_type(net.nodes@, net.latches@, net.latches@.len());
}

fn apply_clock_phase(latch_type: LatchSynchType, phase: InputPhase) -> (r: Result<LatchSynchType, SenumError>)
    ensures
        r == phased(latch_type, phase),
{
    match phase {
        InputPhase::NegativeUnate => {
            if latch_type == LatchSynchType::RisingEdge {
                Ok(LatchSynchType::FallingEdge)
            } else {
                Ok(LatchSynchType::RisingEdge)
            }
        },
        InputPhase::Binate => Err(SenumError::BinateClockControlPhase),
        _ => Ok(latch_type),
    }
}

fn is_clock(network: &SenumNetwork, name: &str) -> (r: bool)
    ensures
        r == is_clock_name(network.clock_names@, name@),
{
    for i in 0..network.clock_names.len()
        invariant
            forall|k: int| 0 <= k < i ==> network.clock_names@[k]@ != name@,
    {
        if str_eq(network.clock_names[i].as_str(), name) {
            return true;
        }
    }
    false
}

proof fn lemma_scan_error_stays(nodes: Seq<NetworkNode>, latches: Seq<SenumLatch>, k: nat, m: nat)
    requires
        k <= m,
        latch_scan(nodes, latches, k) is Err,
    ensures
        latch_scan(nodes, latches, m) == latch_scan(nodes, latches, k),
    decreases m - k,
{
    if k < m {
        lemma_scan_error_stays(nodes, latches, k, (m - 1) as nat);
    }
}

proof fn lemma_gated_stays(nodes: Seq<NetworkNode>, clocks: Seq<String>, fanins: Seq<usize>, k: nat, m: nat)
    requires
        k <= m,
        gated_scan(nodes, clocks, fanins, k) is Some,
    ensures
        gated_scan(nodes, clocks, fanins, m) == gated_scan(nodes, clocks, fanins, k),
    decreases m - k,
{
    if k < m {
        lemma_gated_stays(nodes, clocks, fanins, k, (m - 1) as nat);
    }
}

proof fn lemma_fanout_stays(nodes: Seq<NetworkNode>, fanouts: Seq<usize>, k: nat, m: nat)
    requires
        k <= m,
        fanout_scan(nodes, fanouts, k) is Some,
    ensures
        fanout_scan(nodes, fanouts, m) == fanout_scan(nodes, fanouts, k),
    decreases m - k,
{
    if k < m {
        lemma_fanout_stays(nodes, fanouts, k, (m - 1) as nat);
    }
}

/// Checks the clocking of the network for extraction: at most one clock;
/// every controlled latch has the same live control node; every latch is
/// edge-triggered (or of unknown type), all on the same edge. With a
/// control node, its transitive fanins must be clocks or non-inputs, and it
/// must have a clock relation, whose phase sets the edge. Without one, no
/// transitive fanout of the clock may be a primary output other than a
/// control.
pub fn validate_network(network: &SenumNetwork) -> (r: Result<ValidNetwork, SenumError>)
    ensures
        r == validation(*network),
{
    if network.clock_names.len() > 1 {
        return Err(SenumError::MultipleClocks);
    }
    let ghost nodes = network.nodes@;
    let ghost latches = network.latches@;
    let mut control: Option<usize> = None;
    let mut latch_type = LatchSynchType::Unknown;
    let n = network.latches.len();
    for latch_index in 0..n
        invariant
            n == latches.len(),
            nodes == network.nodes@,
            latches == network.latches@,
            latch_scan(nodes, latches, latch_index as nat) == Ok::<(Option<usize>, LatchSynchType), SenumError>((control, latch_type)),
            control matches Some(c) ==> node_ok(nodes, c),
            network.clock_names@.len() <= 1,
    {
        let latch = network.latches[latch_index];
        if let Some(new_control) = latch.control {
            if let Err(e) = require_node(network, new_control) {
                assert(latch_scan(nodes, latches, (latch_index + 1) as nat) == Err::<(Option<usize>, LatchSynchType), SenumError>(e));
                proof {
                    lemma_scan_error_stays(nodes, latches, (latch_index + 1) as nat, n as nat);
                }
                return Err(e);
            }
            match control {
                None => {
                    control = Some(new_control);
                },
                Some(existing) => {
                    if existing != new_control {
                        assert(latch_scan(nodes, latches, (latch_index + 1) as nat) == Err::<(Option<usize>, LatchSynchType), SenumError>(
                            SenumError::DifferentLatchControls { first: existing, second: new_control },
                        ));
                        proof {
                            lemma_scan_error_stays(nodes, latches, (latch_index + 1) as nat, n as nat);
                        }
                        return Err(SenumError::DifferentLatchControls { first: existing, second: new_control });
                    }
                },
            }
        }
        let new_type = latch.synch_type;
        if !new_type.is_edge_or_unknown() {
            proof {
                lemma_scan_error_stays(nodes, latches, (latch_index + 1) as nat, n as nat);
            }
            return Err(SenumError::NonEdgeTriggeredLatch { latch: latch_index, synch_type: new_type });
        }
        if latch_type != LatchSynchType::Unknown && latch_type != new_type {
            proof {
                lemma_scan_error_stays(nodes, latches, (latch_index + 1) as nat, n as nat);
            }
            return Err(SenumError::DifferentLatchTypes { first: latch_type, second: new_type });
        }
        if new_type == LatchSynchType::RisingEdge || new_type == LatchSynchType::FallingEdge {
            latch_type = new_type;
        }
    }
    match control {
        Some(control_node) => {
            let control_data = match require_node(network, control_node) {
                Ok(d) => d,
                Err(e) => {
                    return Err(e);
                },
            };
            let fanins = &control_data.transitive_fanin;
            for k in 0..fanins.len()
                invariant
                    nodes == network.nodes@,
                    network.clock_names@.len() <= 1,
                    latches == network.latches@,
                    n == latches.len(),
                    latch_scan(nodes, latches, n as nat) == Ok::<(Option<usize>, LatchSynchType), SenumError>((Some(control_node), latch_type)),
                    *control_data == nodes[control_node as int],
                    fanins == &control_data.transitive_fanin,
                    gated_scan(nodes, network.clock_names@, fanins@, k as nat) is None,
            {
                let fanin = fanins[k];
                let fanin_data = match require_node(network, fanin) {
                    Ok(d) => d,
                    Err(e) => {
                        assert(gated_scan(nodes, network.clock_names@, fanins@, (k + 1) as nat) == Some(e));
                        proof {
                            lemma_gated_stays(nodes, network.clock_names@, fanins@, (k + 1) as nat, fanins@.len());
                        }
                        return Err(e);
                    },
                };
                if fanin_data.kind == NodeKind::PrimaryInput && !is_clock(network, fanin_data.name.as_str()) {
                    assert(gated_scan(nodes, network.clock_names@, fanins@, (k + 1) as nat) == Some(SenumError::GatedClock { node: fanin }));
                    proof {
                        lemma_gated_stays(nodes, network.clock_names@, fanins@, (k + 1) as nat, fanins@.len());
                    }
                    return Err(SenumError::GatedClock { node: fanin });
                }
            }
            match &control_data.clock_relation {
                None => Err(SenumError::MissingTransitiveClock { control: control_node }),
                Some(relation) => {
                    let t = match apply_clock_phase(latch_type, relation.phase) {
                        Ok(t) => t,
                        Err(e) => {
                            return Err(e);
                        },
                    };
                    Ok(ValidNetwork { control_node: Some(control_node), clock_name: Some(relation.clock_name.clone()), edge_index: t.edge_index() })
                },
            }
        },
        None => {
            if network.clock_names.len() == 1 {
                let clock_node = match network.find_node_by_name(network.clock_names[0].as_str()) {
                    Some(c) => c,
                    None => {
                        return Err(SenumError::ClockNodeNotFound(network.clock_names[0].clone()));
                    },
                };
                proof {
                    lemma_node_named_range(nodes, network.clock_names@[0]@, nodes.len());
                }
                let fanouts = &network.nodes[clock_node].transitive_fanout;
                for k in 0..fanouts.len()
                    invariant
                        nodes == network.nodes@,
                        network.clock_names@.len() == 1,
                        latches == network.latches@,
                        n == latches.len(),
                        latch_scan(nodes, latches, n as nat) == Ok::<(Option<usize>, LatchSynchType), SenumError>((None::<usize>, latch_type)),
                        node_named(nodes, network.clock_names@[0]@, nodes.len()) == Some(clock_node),
                        fanouts == &nodes[clock_node as int].transitive_fanout,
                        fanout_scan(nodes, fanouts@, k as nat) is None,
                {
                    let fanout = fanouts[k];
                    let fanout_data = match require_node(network, fanout) {
                        Ok(d) => d,
                        Err(e) => {
                            assert(fanout_scan(nodes, fanouts@, (k + 1) as nat) == Some(e));
                            proof {
                                lemma_fanout_stays(nodes, fanouts@, (k + 1) as nat, fanouts@.len());
                            }
                            return Err(e);
                        },
                    };
                    if fanout_data.kind == NodeKind::PrimaryOutput && !fanout_data.is_control {
                        assert(fanout_scan(nodes, fanouts@, (k + 1) as nat) == Some(SenumError::ClockPathToPoOrLatchInput { node: fanout }));
                        proof {
                            lemma_fanout_stays(nodes, fanouts@, (k + 1) as nat, fanouts@.len());
                        }
                        return Err(SenumError::ClockPathToPoOrLatchInput { node: fanout });
                    }
                }
            }
            Ok(ValidNetwork { control_node: None, clock_name: None, edge_index: -1 })
        },
    }
}


#[derive(Clone, Debug, Eq, PartialEq)]
pub struct SenumSetup {
    pub validation: ValidNetwork,
    pub latch_count: usize,
    pub primary_input_count: usize,
    pub primary_output_count: usize,
    pub bits_per_word: usize,
    pub words_per_state: usize,
    pub varying_node_capacity: usize,
    pub initial_state: Option<String>,
    pub total_no_of_states: usize,
    pub total_no_of_edges: usize,
}

#[derive(Clone, Debug, Eq, PartialEq)]
pub struct ControlRemoval {
    pub cleared_latches: usize,
    pub deleted_nodes: Vec<usize>,
}

/// The first of the first `k` latches whose initial value is neither 0 nor 1.
pub open spec fn first_non_binary(latches: Seq<SenumLatch>, k: nat) -> Option<int>
    decreases k,
{
    if k == 0 {
        None
    } else {
        match first_non_binary(latches, (k - 1) as nat) {
            Some(i) => Some(i),
            None => if latches[k - 1].initial_value != 0 && latches[k - 1].initial_value != 1 { Some(k - 1) } else { None },
        }
    }
}

/// The first of the first `k` latches whose initial value is not 0 to 3.
pub open spec fn first_unknown_value(latches: Seq<SenumLatch>, k: nat) -> Option<int>
    decreases k,
{
    if k == 0 {
        None
    } else {
        match first_unknown_value(latches, (k - 1) as nat) {
            Some(i) => Some(i),
            None => if latches[k - 1].initial_value < 0 || latches[k - 1].initial_value > 3 { Some(k - 1) } else { None },
        }
    }
}

pub open spec fn value_digit(v: i32) -> char {
    if v == 0 { '0' } else if v == 1 { '1' } else if v == 2 { '2' } else { '3' }
}

proof fn lemma_first_stays(latches: Seq<SenumLatch>, k: nat, m: nat)
    requires
        k <= m,
    ensures
        first_non_binary(latches, k) is Some ==> first_non_binary(latches, m) == first_non_binary(latches, k),
        first_unknown_value(latches, k) is Some ==> first_unknown_value(latches, m) == first_unknown_value(latches, k),
    decreases m - k,
{
    if k < m {
        lemma_first_stays(latches, k, (m - 1) as nat);
    }
}

/// Checks that every latch starts at 0 or 1.
pub fn validate_single_initial_state(latches: &[SenumLatch]) -> (r: Result<(), SenumError>)
    ensures
        match first_non_binary(latches@, latches@.len()) {
            Some(i) => r == Err::<(), SenumError>(SenumError::NonBinaryInitialState { latch: i as usize, value: latches@[i].initial_value }),
            None => r is Ok,
        },
{
    for latch in 0..latches.len()
        invariant
            first_non_binary(latches@, latch as nat) is None,
    {
        let value = latches[latch].initial_value;
        if value != 0 && value != 1 {
            proof {
                lemma_first_stays(latches@, (latch + 1) as nat, latches@.len());
            }
            return Err(SenumError::NonBinaryInitialState { latch, value });
        }
    }
    Ok(())
}

/// The initial state as one digit (0 to 3) per latch.
pub fn initial_state_encoding(latches: &[SenumLatch]) -> (r: Result<String, SenumError>)
    ensures
        match first_unknown_value(latches@, latches@.len()) {
            Some(i) => r == Err::<String, SenumError>(SenumError::UnknownLatchInitialValue { latch: i as usize, value: latches@[i].initial_value }),
            None => r matches Ok(s) && s@ == Seq::new(latches@.len(), |i: int| value_digit(latches@[i].initial_value)),
        },
{
    let mut encoded = String::new();
    for latch in 0..latches.len()
        invariant
            first_unknown_value(latches@, latch as nat) is None,
            encoded@ == Seq::new(latch as nat, |i: int| value_digit(latches@[i].initial_value)),
    {
        let value = latches[latch].initial_value;
        let digit = if value == 0 {
            '0'
        } else if value == 1 {
            '1'
        } else if value == 2 {
            '2'
        } else if value == 3 {
            '3'
        } else {
            proof {
                lemma_first_stays(latches@, (latch + 1) as nat, latches@.len());
            }
            return Err(SenumError::UnknownLatchInitialValue { latch, value });
        };
        push_char(&mut encoded, digit);
        assert(encoded@ =~= Seq::new((latch + 1) as nat, |i: int| value_digit(latches@[i].initial_value)));
    }
    Ok(encoded)
}

/// Number of words of `bits` bits that hold `n` bits, at least one.
pub open spec fn words_for(n: usize, bits: usize) -> usize {
    if n == 0 { 1 } else { ((n + bits - 1) / bits as int) as usize }
}

/// The words a state is packed into hold all its latches, with less than
/// one word to spare, and there is always at least one.
pub proof fn lemma_words_for_fits(n: usize, bits: usize)
    requires
        bits > 0,
    ensures
        words_for(n, bits) >= 1,
        n > 0 ==> words_for(n, bits) * bits >= n && (words_for(n, bits) - 1) * bits < n,
{
    if n > 0 {
        let q = (n + bits - 1) / (bits as int);
        assert(q * bits <= n + bits - 1 < q * bits + bits) by (nonlinear_arith)
            requires
                bits > 0,
                q == (n + bits - 1) / (bits as int),
        ;
        assert(q >= 1) by (nonlinear_arith)
            requires
                bits > 0,
                n > 0,
                q == (n + bits - 1) / (bits as int),
        ;
        assert(q <= n) by (nonlinear_arith)
            requires
                bits > 0,
                n > 0,
                q == (n + bits - 1) / (bits as int),
        ;
        assert((q as usize) as int == q);
        assert((q - 1) * bits == q * bits - bits) by (nonlinear_arith);
    }
}

/// The setup of an extraction: the clocking checks, counts of latches and of
/// the primary inputs and outputs beyond them, the packing of a state into
/// words, and, for the complete state table, the initial state.
pub fn prepare_extraction(network: &SenumNetwork, mode: ExtractionMode) -> (r: Result<SenumSetup, SenumError>)
    requires
        network.latches@.len() <= network.primary_input_count ==> network.internal_count + network.primary_input_count
            - network.latches@.len() <= usize::MAX,
    ensures
        match validation(*network) {
            Err(e) => r == Err::<SenumSetup, SenumError>(e),
            Ok(v) => {
                let latches = network.latches@.len();
                if network.primary_input_count < latches || network.primary_output_count < latches {
                    r == Err::<SenumSetup, SenumError>(SenumError::InvalidNetworkCounts {
                        primary_inputs: network.primary_input_count,
                        primary_outputs: network.primary_output_count,
                        latches: latches as usize,
                    })
                } else if mode == ExtractionMode::InitialStateOnly && first_non_binary(network.latches@, latches) is Some {
                    let i = first_non_binary(network.latches@, latches)->Some_0;
                    r == Err::<SenumSetup, SenumError>(SenumError::NonBinaryInitialState { latch: i as usize, value: network.latches@[i].initial_value })
                } else if mode == ExtractionMode::CompleteStateTable && first_unknown_value(network.latches@, latches) is Some {
                    let i = first_unknown_value(network.latches@, latches)->Some_0;
                    r == Err::<SenumSetup, SenumError>(SenumError::UnknownLatchInitialValue { latch: i as usize, value: network.latches@[i].initial_value })
                } else {
                    r matches Ok(setup) && {
                        &&& setup.validation == v
                        &&& setup.latch_count == latches
                        &&& setup.primary_input_count == network.primary_input_count - latches
                        &&& setup.primary_output_count == network.primary_output_count - latches
                        &&& setup.bits_per_word == usize::BITS
                        &&& setup.words_per_state == words_for(latches as usize, usize::BITS as usize)
                        &&& setup.varying_node_capacity == network.internal_count + network.primary_input_count - latches
                        &&& setup.total_no_of_states == 0
                        &&& setup.total_no_of_edges == 0
                        &&& (mode == ExtractionMode::InitialStateOnly ==> setup.initial_state is None)
                        &&& (mode == ExtractionMode::CompleteStateTable ==> (setup.initial_state matches Some(s)
                            && s@ == Seq::new(latches, |i: int| value_digit(network.latches@[i].initial_value))))
                    }
                }
            },
        },
{
    let validation = match validate_network(network) {
        Ok(v) => v,
        Err(e) => {
            return Err(e);
        },
    };
    let latch_count = network.latches.len();
    if network.primary_input_count < latch_count || network.primary_output_count < latch_count {
        return Err(SenumError::InvalidNetworkCounts {
            primary_inputs: network.primary_input_count,
            primary_outputs: network.primary_output_count,
            latches: latch_count,
        });
    }
    let initial_state = match mode {
        ExtractionMode::InitialStateOnly => {
            if let Err(e) = validate_single_initial_state(network.latches.as_slice()) {
                return Err(e);
            }
            None
        },
        ExtractionMode::CompleteStateTable => {
            match initial_state_encoding(network.latches.as_slice()) {
                Ok(s) => Some(s),
                Err(e) => {
                    return Err(e);
                },
            }
        },
    };
    let bits_per_word: usize = usize::BITS as usize;
    let words_per_state: usize = if latch_count == 0 {
        1
    } else {
        (latch_count - 1) / bits_per_word + 1
    };
    assert(latch_count > 0 ==> (latch_count - 1) / (bits_per_word as int) + 1 == (latch_count + bits_per_word - 1) / (bits_per_word as int)) by (nonlinear_arith)
        requires
            bits_per_word > 0,
    ;
    let primary_input_count = network.primary_input_count - latch_count;
    let primary_output_count = network.primary_output_count - latch_count;
    Ok(SenumSetup {
        validation,
        latch_count,
        primary_input_count,
        primary_output_count,
        bits_per_word,
        words_per_state,
        varying_node_capacity: network.internal_count + primary_input_count,
        initial_state,
        total_no_of_states: 0,
        total_no_of_edges: 0,
    })
}

/// Number of missing native pieces that the full extraction needs.
pub const MISSING_EXTRACTION_DEPENDENCIES: usize = 10;

/// The error that the setup of an extraction stops at, if any.
pub open spec fn extraction_error(network: SenumNetwork, mode: ExtractionMode) -> Option<SenumError> {
    match validation(network) {
        Err(e) => Some(e),
        Ok(v) => {
            let latches = network.latches@.len();
            if network.primary_input_count < latches || network.primary_output_count < latches {
                Some(SenumError::InvalidNetworkCounts {
                    primary_inputs: network.primary_input_count,
                    primary_outputs: network.primary_output_count,
                    latches: latches as usize,
                })
            } else if mode == ExtractionMode::InitialStateOnly && first_non_binary(network.latches@, latches) is Some {
                let i = first_non_binary(network.latches@, latches)->Some_0;
                Some(SenumError::NonBinaryInitialState { latch: i as usize, value: network.latches@[i].initial_value })
            } else if mode == ExtractionMode::CompleteStateTable && first_unknown_value(network.latches@, latches) is Some {
                let i = first_unknown_value(network.latches@, latches)->Some_0;
                Some(SenumError::UnknownLatchInitialValue { latch: i as usize, value: network.latches@[i].initial_value })
            } else {
                None
            }
        },
    }
}

/// The full extraction of the state graph: the error of the setup, if it
/// fails; otherwise the missing native pieces.
pub fn stg_extract(network: &SenumNetwork, mode: ExtractionMode) -> (r: Result<SenumSetup, SenumError>)
    requires
        network.latches@.len() <= network.primary_input_count ==> network.internal_count + network.primary_input_count
            - network.latches@.len() <= usize::MAX,
    ensures
        r == Err::<SenumSetup, SenumError>(match extraction_error(*network, mode) {
            Some(e) => e,
            None => SenumError::MissingExtractionDependencies { dependencies: MISSING_EXTRACTION_DEPENDENCIES },
        }),
{
    if let Err(e) = prepare_extraction(network, mode) {
        return Err(e);
    }
    Err(SenumError::MissingExtractionDependencies { dependencies: MISSING_EXTRACTION_DEPENDENCIES })
}

/// `a` is `b` with its deleted flag set to `deleted`.
pub open spec fn node_as(a: NetworkNode, b: NetworkNode, deleted: bool) -> bool {
    &&& a.name@ == b.name@
    &&& a.kind == b.kind
    &&& a.is_control == b.is_control
    &&& a.transitive_fanin@ == b.transitive_fanin@
    &&& a.transitive_fanout@ == b.transitive_fanout@
    &&& match (a.clock_relation, b.clock_relation) {
        (Some(x), Some(y)) => x.clock_name@ == y.clock_name@ && x.phase == y.phase,
        (None, None) => true,
        _ => false,
    }
    &&& a.deleted == deleted
}

/// Number of latches with a control node.
pub open spec fn controlled_count(latches: Seq<SenumLatch>) -> nat
    decreases latches.len(),
{
    if latches.len() == 0 {
        0
    } else {
        controlled_count(latches.drop_last()) + if latches.last().control is Some { 1nat } else { 0nat }
    }
}

/// Removes the clock logic: every latch loses its control node, and the
/// clock's node and its transitive fanouts are deleted.
pub fn remove_control_logic(network: &mut SenumNetwork) -> (r: ControlRemoval)
    ensures
        r.cleared_latches == controlled_count(old(network).latches@),
        final(network).latches@.len() == old(network).latches@.len(),
        forall|i: int| 0 <= i < final(network).latches@.len() ==> (#[trigger] final(network).latches@[i]) == (SenumLatch {
            control: None,
            ..old(network).latches@[i]
        }),
        final(network).clock_names == old(network).clock_names,
        final(network).nodes@.len() == old(network).nodes@.len(),
        ({
            let clock = if old(network).clock_names@.len() == 0 {
                None::<usize>
            } else {
                node_named(old(network).nodes@, old(network).clock_names@[0]@, old(network).nodes@.len())
            };
            match clock {
                None => r.deleted_nodes@.len() == 0 && final(network).nodes == old(network).nodes,
                Some(c) => {
                    &&& r.deleted_nodes@ == old(network).nodes@[c as int].transitive_fanout@.push(c)
                    &&& forall|i: int| 0 <= i < final(network).nodes@.len() ==> node_as(
                        #[trigger] final(network).nodes@[i],
                        old(network).nodes@[i],
                        old(network).nodes@[i].deleted || r.deleted_nodes@.contains(i as usize),
                    )
                },
            }
        }),
{
    let mut cleared: usize = 0;
    let n = network.latches.len();
    let mut latches: Vec<SenumLatch> = Vec::new();
    for i in 0..n
        invariant
            n == old(network).latches@.len(),
            network.latches == old(network).latches,
            latches@.len() == i,
            forall|k: int| 0 <= k < i ==> (#[trigger] latches@[k]) == (SenumLatch { control: None, ..old(network).latches@[k] }),
            cleared == controlled_count(old(network).latches@.take(i as int)),
            cleared <= i,
    {
        let l = network.latches[i];
        assert(old(network).latches@.take(i + 1).drop_last() =~= old(network).latches@.take(i as int));
        if l.control.is_some() {
            cleared = cleared + 1;
        }
        latches.push(SenumLatch { control: None, synch_type: l.synch_type, initial_value: l.initial_value });
    }
    assert(old(network).latches@.take(n as int) =~= old(network).latches@);
    network.latches = latches;
    if network.clock_names.len() == 0 {
        return ControlRemoval { cleared_latches: cleared, deleted_nodes: Vec::new() };
    }
    let found = network.find_node_by_name(network.clock_names[0].as_str());
    let control_node = match found {
        None => {
            return ControlRemoval { cleared_latches: cleared, deleted_nodes: Vec::new() };
        },
        Some(c) => c,
    };
    proof {
        lemma_node_named_range(network.nodes@, network.clock_names@[0]@, network.nodes@.len());
    }
    let mut deleted_nodes: Vec<usize> = Vec::new();
    let fanouts = &network.nodes[control_node].transitive_fanout;
    for k in 0..fanouts.len()
        invariant
            deleted_nodes@ == fanouts@.take(k as int),
    {
        deleted_nodes.push(fanouts[k]);
        assert(fanouts@.take(k + 1) =~= fanouts@.take(k as int).push(fanouts@[k as int]));
    }
    assert(fanouts@.take(fanouts@.len() as int) =~= fanouts@);
    deleted_nodes.push(control_node);
    let ghost nodes0 = network.nodes@;
    let m = network.nodes.len();
    let mut nodes: Vec<NetworkNode> = Vec::new();
    for i in 0..m
        invariant
            m == nodes0.len(),
            network.nodes@ == nodes0,
            nodes@.len() == i,
            forall|k: int| 0 <= k < i ==> node_as(#[trigger] nodes@[k], nodes0[k], nodes0[k].deleted || deleted_nodes@.contains(k as usize)),
    {
        let mut hit = false;
        for j in 0..deleted_nodes.len()
            invariant
                hit == exists|q: int| 0 <= q < j && deleted_nodes@[q] == i,
        {
            if deleted_nodes[j] == i {
                hit = true;
            }
        }
        let old_node = &network.nodes[i];
        let node = NetworkNode {
            name: old_node.name.clone(),
            kind: old_node.kind,
            is_control: old_node.is_control,
            transitive_fanin: copy_ids(&old_node.transitive_fanin),
            transitive_fanout: copy_ids(&old_node.transitive_fanout),
            clock_relation: match &old_node.clock_relation {
                Some(rel) => Some(ClockRelation { clock_name: rel.clock_name.clone(), phase: rel.phase }),
                None => None,
            },
            deleted: old_node.deleted || hit,
        };
        assert(hit == deleted_nodes@.contains(i as usize));
        nodes.push(node);
    }
    network.nodes = nodes;
    ControlRemoval { cleared_latches: cleared, deleted_nodes }
}

fn copy_ids(v: &Vec<usize>) -> (r: Vec<usize>)
    ensures
        r@ == v@,
{
    let mut out: Vec<usize> = Vec::new();
    for k in 0..v.len()
        invariant
            out@ == v@.take(k as int),
    {
        out.push(v[k]);
        assert(v@.take(k + 1) =~= v@.take(k as int).push(v@[k as int]));
    }
    assert(v@.take(v@.len() as int) =~= v@);
    out
}


pub open spec fn synch_name(t: LatchSynchType) -> Seq<char> {
    match t {
        LatchSynchType::Unknown => "Unknown"@,
        LatchSynchType::RisingEdge => "RisingEdge"@,
        LatchSynchType::FallingEdge => "FallingEdge"@,
        LatchSynchType::ActiveHigh => "ActiveHigh"@,
        LatchSynchType::ActiveLow => "ActiveLow"@,
    }
}

fn push_synch(s: &mut String, t: LatchSynchType)
    ensures
        final(s)@ == old(s)@ + synch_name(t),
{
    match t {
        LatchSynchType::Unknown => push_str(s, "Unknown"),
        LatchSynchType::RisingEdge => push_str(s, "RisingEdge"),
        LatchSynchType::FallingEdge => push_str(s, "FallingEdge"),
        LatchSynchType::ActiveHigh => push_str(s, "ActiveHigh"),
        LatchSynchType::ActiveLow => push_str(s, "ActiveLow"),
    }
}

/// The message of an error.
pub open spec fn error_text(e: SenumError) -> Seq<char> {
    match e {
        SenumError::MultipleClocks => "multiple clocks found in the design"@,
        SenumError::UnknownNode { node } => "unknown network node "@ + decimal(node as nat),
        SenumError::DifferentLatchControls { first, second } => "different signals control latches: "@
            + decimal(first as nat) + " and "@ + decimal(second as nat),
        SenumError::NonEdgeTriggeredLatch { latch, synch_type } => "latch "@ + decimal(latch as nat)
            + " has unsupported non-edge synchronization type "@ + synch_name(synch_type),
        SenumError::DifferentLatchTypes { first, second } => "latches of different types are present: "@
            + synch_name(first) + " and "@ + synch_name(second),
        SenumError::GatedClock { node } => "gated clock input found at node "@ + decimal(node as nat),
        SenumError::MissingTransitiveClock { control } => "control node "@ + decimal(control as nat)
            + " has no native transitive clock relation"@,
        SenumError::BinateClockControlPhase => "phase relationship between clock and control is not unique"@,
        SenumError::ClockNodeNotFound(name) => "clock node "@ + name@ + " was not found"@,
        SenumError::ClockPathToPoOrLatchInput { node } => "path from clock to latch input or primary output reaches node "@
            + decimal(node as nat),
        SenumError::NonBinaryInitialState { latch, value } => "latch "@ + decimal(latch as nat) + " has initial value "@
            + signed_decimal(value as int) + "; expected 0 or 1"@,
        SenumError::UnknownLatchInitialValue { latch, value } => "latch "@ + decimal(latch as nat)
            + " has unknown initial value "@ + signed_decimal(value as int),
        SenumError::InvalidNetworkCounts { primary_inputs, primary_outputs, latches } => "network counts are inconsistent: "@
            + decimal(primary_inputs as nat) + " PIs, "@ + decimal(primary_outputs as nat) + " POs, "@
            + decimal(latches as nat) + " latches"@,
        SenumError::MissingExtractionDependencies { dependencies } => "STG extraction is blocked by "@
            + decimal(dependencies as nat) + " missing native dependencies"@,
    }
}

impl SenumError {
    /// The message describing the error.
    pub fn message(&self) -> (r: String)
        ensures
            r@ == error_text(*self),
    {
        let mut s = String::new();
        match self {
            SenumError::MultipleClocks => push_str(&mut s, "multiple clocks found in the design"),
            SenumError::UnknownNode { node } => {
                push_str(&mut s, "unknown network node ");
                push_decimal(&mut s, *node as u64);
            },
            SenumError::DifferentLatchControls { first, second } => {
                push_str(&mut s, "different signals control latches: ");
                push_decimal(&mut s, *first as u64);
                push_str(&mut s, " and ");
                push_decimal(&mut s, *second as u64);
            },
            SenumError::NonEdgeTriggeredLatch { latch, synch_type } => {
                push_str(&mut s, "latch ");
                push_decimal(&mut s, *latch as u64);
                push_str(&mut s, " has unsupported non-edge synchronization type ");
                push_synch(&mut s, *synch_type);
            },
            SenumError::DifferentLatchTypes { first, second } => {
                push_str(&mut s, "latches of different types are present: ");
                push_synch(&mut s, *first);
                push_str(&mut s, " and ");
                push_synch(&mut s, *second);
            },
            SenumError::GatedClock { node } => {
                push_str(&mut s, "gated clock input found at node ");
                push_decimal(&mut s, *node as u64);
            },
            SenumError::MissingTransitiveClock { control } => {
                push_str(&mut s, "control node ");
                push_decimal(&mut s, *control as u64);
                push_str(&mut s, " has no native transitive clock relation");
            },
            SenumError::BinateClockControlPhase => push_str(&mut s, "phase relationship between clock and control is not unique"),
            SenumError::ClockNodeNotFound(name) => {
                push_str(&mut s, "clock node ");
                push_str(&mut s, name.as_str());
                push_str(&mut s, " was not found");
            },
            SenumError::ClockPathToPoOrLatchInput { node } => {
                push_str(&mut s, "path from clock to latch input or primary output reaches node ");
                push_decimal(&mut s, *node as u64);
            },
            SenumError::NonBinaryInitialState { latch, value } => {
                push_str(&mut s, "latch ");
                push_decimal(&mut s, *latch as u64);
                push_str(&mut s, " has initial value ");
                push_signed_decimal(&mut s, *value as i64);
                push_str(&mut s, "; expected 0 or 1");
            },
            SenumError::UnknownLatchInitialValue { latch, value } => {
                push_str(&mut s, "latch ");
                push_decimal(&mut s, *latch as u64);
                push_str(&mut s, " has unknown initial value ");
                push_signed_decimal(&mut s, *value as i64);
            },
            SenumError::InvalidNetworkCounts { primary_inputs, primary_outputs, latches } => {
                push_str(&mut s, "network counts are inconsistent: ");
                push_decimal(&mut s, *primary_inputs as u64);
                push_str(&mut s, " PIs, ");
                push_decimal(&mut s, *primary_outputs as u64);
                push_str(&mut s, " POs, ");
                push_decimal(&mut s, *latches as u64);
                push_str(&mut s, " latches");
            },
            SenumError::MissingExtractionDependencies { dependencies } => {
                push_str(&mut s, "STG extraction is blocked by ");
                push_decimal(&mut s, *dependencies as u64);
                push_str(&mut s, " missing native dependencies");
            },
        }
        assert(s@ =~= error_text(*self));
        s
    }
}

} // verus!
