//! Simulation of a logic network: single-value simulation of sum-of-products
//! nodes, 32-pattern packed simulation, random equivalence checking of two
//! networks, and stepping a state transition graph on binary inputs.

use vstd::prelude::*;
use crate::text::{chars_of, push_char, push_str, push_decimal, decimal, signed_decimal, str_eq, debug_quoted, debug_text};

verus! {

/// The set-encoding values of cube literals.
pub const ZERO: usize = 1;
pub const ONE: usize = 2;
pub const TWO: usize = 3;
/// The number of patterns simulated at once by packed simulation.
pub const PACKED_PATTERN_BITS: usize = 32;

/// The index of a node in a network.
#[derive(Clone, Copy, Debug, Eq, Hash, PartialEq, Structural)]
pub struct NodeId(pub usize);

/// A binary logic value.
#[derive(Clone, Copy, Debug, Eq, PartialEq, Structural)]
pub enum LogicValue {
    Zero,
    One,
}

/// The logic value of a bit.
pub open spec fn value_of(b: bool) -> LogicValue {
    if b { LogicValue::One } else { LogicValue::Zero }
}

impl LogicValue {
    pub fn bit(self) -> (r: bool)
        ensures
            r == (self == LogicValue::One),
    {
        match self {
            LogicValue::Zero => false,
            LogicValue::One => true,
        }
    }

    pub fn as_u8(self) -> (r: u8)
        ensures
            r == if self == LogicValue::One { 1u8 } else { 0u8 },
    {
        match self {
            LogicValue::Zero => 0,
            LogicValue::One => 1,
        }
    }

    /// The value repeated in all 32 packed patterns.
    pub fn packed(self) -> (r: u32)
        ensures
            r == if self == LogicValue::One { u32::MAX } else { 0u32 },
    {
        if self.bit() { u32::MAX } else { 0 }
    }
}

impl vstd::std_specs::convert::FromSpecImpl<bool> for LogicValue {
    open spec fn obeys_from_spec() -> bool {
        true
    }

    open spec fn from_spec(v: bool) -> Self {
        value_of(v)
    }
}

impl From<bool> for LogicValue {
    fn from(value: bool) -> (r: Self) {
        if value { LogicValue::One } else { LogicValue::Zero }
    }
}

impl vstd::std_specs::convert::TryFromSpecImpl<i32> for LogicValue {
    open spec fn obeys_try_from_spec() -> bool {
        true
    }

    open spec fn try_from_spec(v: i32) -> Result<Self, InterpretError> {
        if v == 0 {
            Ok(LogicValue::Zero)
        } else if v == 1 {
            Ok(LogicValue::One)
        } else {
            Err(InterpretError::InvalidInputValue(v))
        }
    }
}

impl TryFrom<i32> for LogicValue {
    type Error = InterpretError;

    fn try_from(value: i32) -> (r: Result<Self, Self::Error>) {
        if value == 0 {
            Ok(LogicValue::Zero)
        } else if value == 1 {
            Ok(LogicValue::One)
        } else {
            Err(InterpretError::InvalidInputValue(value))
        }
    }
}

#[derive(Clone, Copy, Debug, Eq, PartialEq, Structural)]
pub enum NodeKind {
    PrimaryInput,
    PrimaryOutput,
    Internal,
}

/// A literal of a cube: the fanin must be 0, 1, or either.
#[derive(Clone, Copy, Debug, Eq, PartialEq, Structural)]
pub enum Literal {
    Zero,
    One,
    DontCare,
}

/// Whether a literal admits a value.
pub open spec fn accepts(l: Literal, v: LogicValue) -> bool {
    match l {
        Literal::Zero => v == LogicValue::Zero,
        Literal::One => v == LogicValue::One,
        Literal::DontCare => true,
    }
}

impl Literal {
    /// The literal of a set-encoding value.
    pub fn from_c_value(value: usize) -> (r: Result<Self, InterpretError>)
        ensures
            r == if value == ZERO {
                Ok::<Literal, InterpretError>(Literal::Zero)
            } else if value == ONE {
                Ok(Literal::One)
            } else if value == TWO {
                Ok(Literal::DontCare)
            } else {
                Err(InterpretError::InvalidLiteral(value))
            },
    {
        if value == ZERO {
            Ok(Literal::Zero)
        } else if value == ONE {
            Ok(Literal::One)
        } else if value == TWO {
            Ok(Literal::DontCare)
        } else {
            Err(InterpretError::InvalidLiteral(value))
        }
    }

    /// The set-encoding value of the literal.
    pub fn c_value(self) -> (r: usize)
        ensures
            r == match self {
                Literal::Zero => ZERO,
                Literal::One => ONE,
                Literal::DontCare => TWO,
            },
    {
        match self {
            Literal::Zero => ZERO,
            Literal::One => ONE,
            Literal::DontCare => TWO,
        }
    }

    fn accepts(self, value: LogicValue) -> (r: bool)
        ensures
            r == accepts(self, value),
    {
        match self {
            Literal::Zero => value == LogicValue::Zero,
            Literal::One => value == LogicValue::One,
            Literal::DontCare => true,
        }
    }
}

/// A product term: one literal per fanin.
#[derive(Clone, Debug, Eq, PartialEq)]
pub struct Cube {
    literals: Vec<Literal>,
}

impl View for Cube {
    type V = Seq<Literal>;

    closed spec fn view(&self) -> Seq<Literal> {
        self.literals@
    }
}

/// The first set-encoding value of `vs` that is no literal.
pub open spec fn first_invalid_literal(vs: Seq<usize>) -> Option<usize>
    decreases vs.len(),
{
    if vs.len() == 0 {
        None
    } else if vs[0] != ZERO && vs[0] != ONE && vs[0] != TWO {
        Some(vs[0])
    } else {
        first_invalid_literal(vs.drop_first())
    }
}

/// The literal of a valid set-encoding value.
pub open spec fn literal_of(v: usize) -> Literal {
    if v == ZERO {
        Literal::Zero
    } else if v == ONE {
        Literal::One
    } else {
        Literal::DontCare
    }
}

/// Whether each literal admits the value at its position, over the positions
/// both sequences have.
pub open spec fn cube_admits(lits: Seq<Literal>, values: Seq<LogicValue>) -> bool {
    forall|i: int| 0 <= i < lits.len() && i < values.len() ==> accepts(lits[i], values[i])
}

impl Cube {
    pub fn new(literals: Vec<Literal>) -> (r: Self)
        ensures
            r@ == literals@,
    {
        Cube { literals }
    }

    /// The cube of set-encoding values; fails on the first value that is no
    /// literal.
    pub fn from_c_literals(literals: &[usize]) -> (r: Result<Self, InterpretError>)
        ensures
            match first_invalid_literal(literals@) {
                Some(v) => r == Err::<Cube, InterpretError>(InterpretError::InvalidLiteral(v)),
                None => r matches Ok(c) && c@ == Seq::new(literals@.len(), |i: int| literal_of(literals@[i])),
            },
    {
        let mut out: Vec<Literal> = Vec::new();
        let mut k: usize = 0;
        assert(literals@.skip(0) =~= literals@);
        while k < literals.len()
            invariant
                k <= literals@.len(),
                first_invalid_literal(literals@.skip(k as int)) == first_invalid_literal(literals@),
                out@ == Seq::new(k as nat, |i: int| literal_of(literals@[i])),
            decreases literals@.len() - k,
        {
            assert(literals@.skip(k as int)[0] == literals@[k as int]);
            assert(literals@.skip(k as int).drop_first() =~= literals@.skip(k + 1));
            let l = Literal::from_c_value(literals[k])?;
            out.push(l);
            assert(out@ =~= Seq::new((k + 1) as nat, |i: int| literal_of(literals@[i])));
            k = k + 1;
        }
        Ok(Cube { literals: out })
    }

    pub fn literals(&self) -> (r: &[Literal])
        ensures
            r@ == self@,
    {
        self.literals.as_slice()
    }

    fn matches_values(&self, values: &[LogicValue]) -> (r: bool)
        ensures
            r == cube_admits(self@, values@),
    {
        let n = if self.literals.len() < values.len() { self.literals.len() } else { values.len() };
        for i in 0..n
            invariant
                n <= self.literals@.len(),
                n <= values@.len(),
                n == self.literals@.len() || n == values@.len(),
                forall|j: int| 0 <= j < i ==> accepts(self@[j], values@[j]),
        {
            if !self.literals[i].accepts(values[i]) {
                return false;
            }
        }
        true
    }
}

/// A node of a simulation network.
#[derive(Clone, Debug, Eq, PartialEq)]
pub struct SimNode {
    pub name: String,
    pub kind: NodeKind,
    pub fanins: Vec<NodeId>,
    pub cubes: Vec<Cube>,
    pub value: Option<LogicValue>,
}

impl SimNode {
    pub fn new(name: &str, kind: NodeKind) -> (r: Self)
        ensures
            r.name@ == name@,
            r.kind == kind,
            r.fanins@ == Seq::<NodeId>::empty(),
            r.cubes@ == Seq::<Cube>::empty(),
            r.value is None,
    {
        SimNode { name: name.to_owned(), kind, fanins: Vec::new(), cubes: Vec::new(), value: None }
    }

    pub fn with_fanins(self, fanins: Vec<NodeId>) -> (r: Self)
        ensures
            r == (SimNode { fanins, ..self }),
    {
        SimNode { fanins, ..self }
    }

    pub fn with_cubes(self, cubes: Vec<Cube>) -> (r: Self)
        ensures
            r == (SimNode { cubes, ..self }),
    {
        SimNode { cubes, ..self }
    }
}

/// A simulation network: nodes with the primary inputs and outputs listed in
/// the order they were added.
#[derive(Clone, Debug, Eq, PartialEq)]
pub struct SimNetwork {
    nodes: Vec<SimNode>,
    primary_inputs: Vec<NodeId>,
    primary_outputs: Vec<NodeId>,
}

impl SimNetwork {
    pub closed spec fn nodes_seq(&self) -> Seq<SimNode> {
        self.nodes@
    }

    pub closed spec fn inputs_seq(&self) -> Seq<NodeId> {
        self.primary_inputs@
    }

    pub closed spec fn outputs_seq(&self) -> Seq<NodeId> {
        self.primary_outputs@
    }

    pub fn new() -> (r: Self)
        ensures
            r.nodes_seq() == Seq::<SimNode>::empty(),
            r.inputs_seq() == Seq::<NodeId>::empty(),
            r.outputs_seq() == Seq::<NodeId>::empty(),
    {
        SimNetwork { nodes: Vec::new(), primary_inputs: Vec::new(), primary_outputs: Vec::new() }
    }

    /// Adds a node; primary inputs and outputs are also listed as such.
    pub fn add_node(&mut self, node: SimNode) -> (r: NodeId)
        ensures
            r == NodeId(old(self).nodes_seq().len() as usize),
            final(self).nodes_seq() == old(self).nodes_seq().push(node),
            final(self).inputs_seq() == if node.kind == NodeKind::PrimaryInput {
                old(self).inputs_seq().push(r)
            } else {
                old(self).inputs_seq()
            },
            final(self).outputs_seq() == if node.kind == NodeKind::PrimaryOutput {
                old(self).outputs_seq().push(r)
            } else {
                old(self).outputs_seq()
            },
    {
        let id = NodeId(self.nodes.len());
        match node.kind {
            NodeKind::PrimaryInput => self.primary_inputs.push(id),
            NodeKind::PrimaryOutput => self.primary_outputs.push(id),
            NodeKind::Internal => {},
        }
        self.nodes.push(node);
        id
    }

    pub fn node(&self, id: NodeId) -> (r: Result<&SimNode, InterpretError>)
        ensures
            id.0 < self.nodes_seq().len() ==> r == Ok::<&SimNode, InterpretError>(&self.nodes_seq()[id.0 as int]),
            id.0 >= self.nodes_seq().len() ==> r == Err::<&SimNode, InterpretError>(InterpretError::UnknownNode(id)),
    {
        if id.0 < self.nodes.len() {
            Ok(&self.nodes[id.0])
        } else {
            Err(InterpretError::UnknownNode(id))
        }
    }

    pub fn node_mut(&mut self, id: NodeId) -> (r: Result<&mut SimNode, InterpretError>)
        ensures
            id.0 < old(self).nodes_seq().len() ==> (r matches Ok(m) && *m == old(self).nodes_seq()[id.0 as int]
                && final(self).nodes_seq() == old(self).nodes_seq().update(id.0 as int, *final(m))
                && final(self).inputs_seq() == old(self).inputs_seq()
                && final(self).outputs_seq() == old(self).outputs_seq()),
            id.0 >= old(self).nodes_seq().len() ==> r == Err::<&mut SimNode, InterpretError>(InterpretError::UnknownNode(id))
                && *final(self) == *old(self),
    {
        if id.0 < self.nodes.len() {
            Ok(&mut self.nodes[id.0])
        } else {
            Err(InterpretError::UnknownNode(id))
        }
    }

    pub fn primary_inputs(&self) -> (r: &[NodeId])
        ensures
            r@ == self.inputs_seq(),
    {
        self.primary_inputs.as_slice()
    }

    pub fn primary_outputs(&self) -> (r: &[NodeId])
        ensures
            r@ == self.outputs_seq(),
    {
        self.primary_outputs.as_slice()
    }
}

impl Default for SimNetwork {
    fn default() -> (r: Self)
        ensures
            r.nodes_seq() == Seq::<SimNode>::empty(),
            r.inputs_seq() == Seq::<NodeId>::empty(),
            r.outputs_seq() == Seq::<NodeId>::empty(),
    {
        SimNetwork::new()
    }
}

/// A transition of a state graph, with input and output patterns.
#[derive(Clone, Debug, Eq, PartialEq)]
pub struct StgEdge {
    pub from: String,
    pub to: String,
    pub input: String,
    pub output: String,
}

/// A state transition graph being simulated: the current state, the output
/// width, and the transitions in the order they were added.
#[derive(Clone, Debug, Eq, PartialEq)]
pub struct StgModel {
    current: String,
    output_count: usize,
    edges: Vec<StgEdge>,
}

impl StgModel {
    pub closed spec fn current_seq(&self) -> Seq<char> {
        self.current@
    }

    pub closed spec fn output_width(&self) -> nat {
        self.output_count as nat
    }

    pub closed spec fn edges_seq(&self) -> Seq<StgEdge> {
        self.edges@
    }

    pub fn new(current: &str, output_count: usize) -> (r: Self)
        ensures
            r.current_seq() == current@,
            r.output_width() == output_count,
            r.edges_seq() == Seq::<StgEdge>::empty(),
    {
        StgModel { current: current.to_owned(), output_count, edges: Vec::new() }
    }

    pub fn current_state(&self) -> (r: &str)
        ensures
            r@ == self.current_seq(),
    {
        self.current.as_str()
    }

    pub fn add_edge(&mut self, from: &str, to: &str, input: &str, output: &str)
        ensures
            final(self).current_seq() == old(self).current_seq(),
            final(self).output_width() == old(self).output_width(),
            final(self).edges_seq().len() == old(self).edges_seq().len() + 1,
            final(self).edges_seq().drop_last() == old(self).edges_seq(),
            final(self).edges_seq().last().from@ == from@,
            final(self).edges_seq().last().to@ == to@,
            final(self).edges_seq().last().input@ == input@,
            final(self).edges_seq().last().output@ == output@,
    {
        let edge = StgEdge { from: from.to_owned(), to: to.to_owned(), input: input.to_owned(), output: output.to_owned() };
        self.edges.push(edge);
        assert(self.edges@.drop_last() =~= old(self).edges@);
    }
}

/// One step of a state graph: the output characters and the next state.
#[derive(Clone, Debug, Eq, PartialEq)]
pub struct StgStep {
    pub output: Vec<char>,
    pub next_state: String,
}

/// A pattern on which two networks differ.
#[derive(Clone, Debug, Eq, PartialEq)]
pub struct VerificationFailure {
    pub input_pattern: Vec<LogicValue>,
    pub internal_outputs: Vec<LogicValue>,
    pub read_in_outputs: Vec<LogicValue>,
    pub faulty_output: usize,
}

#[derive(Clone, Debug, Eq, PartialEq)]
pub enum VerificationResult {
    Passed { random_vectors: usize },
    Failed(VerificationFailure),
}

/// Errors of simulation.
#[derive(Clone, Debug, Eq, PartialEq)]
pub enum InterpretError {
    UnknownNode(NodeId),
    InvalidInputValue(i32),
    InvalidLiteral(usize),
    WrongInputCount { expected: usize, actual: usize },
    MissingNodeValue(NodeId),
    MissingOutputDriver(NodeId),
    CubeArityMismatch { node: NodeId, cube_literals: usize, fanins: usize },
    InvalidStgValue(LogicValue),
    InvalidStgOutputWidth { state: String, output: String, expected: usize },
    MissingSisPorts { operation: &'static str },
}

/// Simulation of a node of a native network: not available.
pub fn simulate_node_from_sis() -> (r: Result<LogicValue, InterpretError>)
    ensures
        r == Err::<LogicValue, InterpretError>(InterpretError::MissingSisPorts { operation: "node simulation on a native network" }),
{
    Err(InterpretError::MissingSisPorts { operation: "node simulation on a native network" })
}

/// Simulation of a native network: not available.
pub fn simulate_network_from_sis() -> (r: Result<Vec<LogicValue>, InterpretError>)
    ensures
        r == Err::<Vec<LogicValue>, InterpretError>(InterpretError::MissingSisPorts { operation: "network simulation on a native network" }),
{
    Err(InterpretError::MissingSisPorts { operation: "network simulation on a native network" })
}

/// Stepping a native state graph: not available.
pub fn simulate_stg_from_sis() -> (r: Result<Option<StgStep>, InterpretError>)
    ensures
        r == Err::<Option<StgStep>, InterpretError>(InterpretError::MissingSisPorts { operation: "state graph simulation on a native graph" }),
{
    Err(InterpretError::MissingSisPorts { operation: "state graph simulation on a native graph" })
}

/// Whether an input pattern and a value agree: same length, and at every
/// position equal characters or a '-' on either side.
pub open spec fn patterns_agree(p: Seq<char>, v: Seq<char>) -> bool {
    p.len() == v.len() && forall|i: int| 0 <= i < p.len() ==> p[i] == '-' || v[i] == '-' || p[i] == v[i]
}

pub fn equivtrans(pattern: &str, value: &str) -> (r: bool)
    ensures
        r == patterns_agree(pattern@, value@),
{
    let p = chars_of(pattern);
    let v = chars_of(value);
    let n = if p.len() < v.len() { p.len() } else { v.len() };
    let mut ok = true;
    for i in 0..n
        invariant
            n <= p@.len(),
            n <= v@.len(),
            n == p@.len() || n == v@.len(),
            ok == forall|j: int| 0 <= j < i ==> p@[j] == '-' || v@[j] == '-' || p@[j] == v@[j],
    {
        if !(p[i] == '-' || v[i] == '-' || p[i] == v[i]) {
            ok = false;
        }
    }
    ok && p.len() == v.len()
}

/// The values that a mask selects from each packed word: whether the word
/// has a bit in common with the mask.
pub fn print_pattern(pattern: &[u32], mask: u32) -> (r: Vec<LogicValue>)
    ensures
        r@ == Seq::new(pattern@.len(), |i: int| value_of(pattern@[i] & mask != 0)),
{
    let mut out: Vec<LogicValue> = Vec::new();
    for i in 0..pattern.len()
        invariant
            out@ == Seq::new(i as nat, |j: int| value_of(pattern@[j] & mask != 0)),
    {
        out.push(LogicValue::from((pattern[i] & mask) != 0));
        assert(out@ =~= Seq::new((i + 1) as nat, |j: int| value_of(pattern@[j] & mask != 0)));
    }
    out
}

/// The linear congruential step of the random generator.
pub open spec fn lcg_step(s: u32) -> u32 {
    ((s as int * 1103515245 + 12345) % 0x1_0000_0000) as u32
}

/// The 31-bit random value drawn from a generator state after its step.
pub open spec fn random_of(s: u32) -> u32 {
    (s >> 1u32) & 0x7fff_ffffu32
}

/// The linear congruential generator of random patterns.
#[derive(Clone, Debug, Eq, PartialEq)]
pub struct SisRandom {
    state: u32,
}

impl SisRandom {
    pub closed spec fn state_of(&self) -> u32 {
        self.state
    }

    pub fn new(seed: u32) -> (r: Self)
        ensures
            r.state_of() == seed,
    {
        SisRandom { state: seed }
    }

    /// Advances the generator and returns 31 random bits.
    pub fn random31(&mut self) -> (r: u32)
        ensures
            final(self).state_of() == lcg_step(old(self).state_of()),
            r == random_of(final(self).state_of()),
    {
        let s0 = self.state;
        let a = s0.wrapping_mul(1103515245u32);
        let s = a.wrapping_add(12345u32);
        proof {
            let p: int = s0 as int * 1103515245;
            assert(a as int == p % 0x1_0000_0000);
            vstd::arithmetic::div_mod::lemma_add_mod_noop(p, 12345, 0x1_0000_0000);
            assert(12345int % 0x1_0000_0000 == 12345);
            assert(0 <= a < 0x1_0000_0000);
            if a as int + 12345 >= 0x1_0000_0000 {
                let x: int = a as int + 12345 - 0x1_0000_0000;
                vstd::arithmetic::div_mod::lemma_mod_add_multiples_vanish(x, 0x1_0000_0000);
                vstd::arithmetic::div_mod::lemma_small_mod(x as nat, 0x1_0000_0000);
                assert((a as int + 12345) % 0x1_0000_0000 == a as int + 12345 - 0x1_0000_0000);
            } else {
                vstd::arithmetic::div_mod::lemma_small_mod((a as int + 12345) as nat, 0x1_0000_0000);
            }
            assert(s == lcg_step(s0));
        }
        self.state = s;
        (s >> 1u32) & 0x7fff_ffffu32
    }
}

/// A random packed word drawn from the generator state `s`, and the state
/// after it: the high half from one draw, the low half from the next.
pub open spec fn random_word(s: u32) -> (u32, u32) {
    let s1 = lcg_step(s);
    let s2 = lcg_step(s1);
    (((random_of(s1) << 16u32) | (random_of(s2) & 0xffffu32)) as u32, s2)
}

/// `n` random packed words drawn from state `s`, and the state after them.
pub open spec fn random_pattern(s: u32, n: nat) -> (Seq<u32>, u32)
    decreases n,
{
    if n == 0 {
        (Seq::empty(), s)
    } else {
        let (p, s1) = random_pattern(s, (n - 1) as nat);
        let (w, s2) = random_word(s1);
        (p.push(w), s2)
    }
}

/// Draws `n` random packed words.
pub fn gen_random_pattern(n: usize, rng: &mut SisRandom) -> (r: Vec<u32>)
    ensures
        (r@, final(rng).state_of()) == random_pattern(old(rng).state_of(), n as nat),
{
    let mut out: Vec<u32> = Vec::new();
    for i in 0..n
        invariant
            (out@, rng.state_of()) == random_pattern(old(rng).state_of(), i as nat),
    {
        let hi = rng.random31();
        let lo = rng.random31();
        out.push((hi << 16u32) | (lo & 0xffffu32));
    }
    out
}


/// The packed word a literal contributes for a packed fanin word.
pub open spec fn literal_word(l: Literal, x: u32) -> u32 {
    match l {
        Literal::Zero => !x,
        Literal::One => x,
        Literal::DontCare => 0xffff_ffffu32,
    }
}

/// The packed AND of a cube's literals over packed fanin words.
pub open spec fn cube_word(lits: Seq<Literal>, xs: Seq<u32>) -> u32
    decreases lits.len(),
{
    if lits.len() == 0 {
        0xffff_ffffu32
    } else {
        cube_word(lits.drop_last(), xs) & literal_word(lits.last(), xs[lits.len() - 1])
    }
}

/// The packed OR of the cubes over packed fanin words; fails at the first
/// cube whose size is not the number of fanins.
pub open spec fn sop_word(cubes: Seq<Cube>, xs: Seq<u32>) -> Result<u32, InterpretError>
    decreases cubes.len(),
{
    if cubes.len() == 0 {
        Ok(0u32)
    } else {
        match sop_word(cubes.drop_last(), xs) {
            Err(e) => Err(e),
            Ok(acc) => {
                let c = cubes.last();
                if c@.len() != xs.len() {
                    Err(InterpretError::CubeArityMismatch { node: NodeId(usize::MAX), cube_literals: c@.len() as usize, fanins: xs.len() as usize })
                } else {
                    Ok(acc | cube_word(c@, xs))
                }
            },
        }
    }
}

proof fn lemma_sop_word_error_sticks(cubes: Seq<Cube>, xs: Seq<u32>, k: int)
    requires
        0 <= k <= cubes.len(),
        sop_word(cubes.take(k), xs) is Err,
    ensures
        sop_word(cubes, xs) == sop_word(cubes.take(k), xs),
    decreases cubes.len(),
{
    if k == cubes.len() {
        assert(cubes.take(k) =~= cubes);
    } else {
        assert(cubes.drop_last().take(k) =~= cubes.take(k));
        lemma_sop_word_error_sticks(cubes.drop_last(), xs, k);
    }
}

/// Simulates a node on 32 packed patterns at once.
pub fn simulate_node_32(node: &SimNode, packed_fanins: &[u32]) -> (r: Result<u32, InterpretError>)
    ensures
        r == sop_word(node.cubes@, packed_fanins@),
{
    let mut result: u32 = 0;
    let nc = node.cubes.len();
    assert(node.cubes@.take(0) =~= Seq::<Cube>::empty());
    for ci in 0..nc
        invariant
            nc == node.cubes@.len(),
            sop_word(node.cubes@.take(ci as int), packed_fanins@) == Ok::<u32, InterpretError>(result),
    {
        let cube = &node.cubes[ci];
        assert(node.cubes@.take(ci + 1).drop_last() =~= node.cubes@.take(ci as int));
        assert(node.cubes@.take(ci + 1).last() == *cube);
        if cube.literals.len() != packed_fanins.len() {
            assert(cube@.len() == cube.literals@.len());
            proof {
                lemma_sop_word_error_sticks(node.cubes@, packed_fanins@, ci + 1);
            }
            return Err(InterpretError::CubeArityMismatch {
                node: NodeId(usize::MAX),
                cube_literals: cube.literals.len(),
                fanins: packed_fanins.len(),
            });
        }
        let mut and_result: u32 = 0xffff_ffff;
        let nl = cube.literals.len();
        assert(cube@.take(0) =~= Seq::<Literal>::empty());
        for li in 0..nl
            invariant
                nl == cube@.len(),
                nl == packed_fanins@.len(),
                and_result == cube_word(cube@.take(li as int), packed_fanins@),
        {
            let x = packed_fanins[li];
            let w = match cube.literals[li] {
                Literal::Zero => !x,
                Literal::One => x,
                Literal::DontCare => 0xffff_ffffu32,
            };
            assert(cube@.take(li + 1).drop_last() =~= cube@.take(li as int));
            assert(cube@[li as int] == cube.literals@[li as int]);
            and_result = and_result & w;
        }
        assert(cube@.take(nl as int) =~= cube@);
        result = result | and_result;
    }
    assert(node.cubes@.take(nc as int) =~= node.cubes@);
    Ok(result)
}


/// Bit `j` of a packed word: the value of pattern `j`.
pub open spec fn word_bit(w: u32, j: u32) -> bool {
    (w >> j) & 1u32 == 1u32
}

/// The values of pattern `j` in packed words.
pub open spec fn bits_at(xs: Seq<u32>, j: u32) -> Seq<LogicValue> {
    Seq::new(xs.len(), |i: int| value_of(word_bit(xs[i], j)))
}

/// Whether a sum of products holds for the values: some cube admits them.
pub open spec fn sop_holds(cubes: Seq<Cube>, values: Seq<LogicValue>) -> bool {
    exists|k: int| 0 <= k < cubes.len() && #[trigger] cube_admits(cubes[k]@, values)
}

proof fn lemma_word_bit_ops()
    by (bit_vector)
    ensures
        forall|a: u32, b: u32, j: u32| j < 32 ==> #[trigger] word_bit(a & b, j) == (word_bit(a, j) && word_bit(b, j)),
        forall|a: u32, b: u32, j: u32| j < 32 ==> #[trigger] word_bit(a | b, j) == (word_bit(a, j) || word_bit(b, j)),
        forall|a: u32, j: u32| j < 32 ==> #[trigger] word_bit(!a, j) == !word_bit(a, j),
        forall|j: u32| j < 32 ==> #[trigger] word_bit(0xffff_ffffu32, j),
        forall|j: u32| j < 32 ==> !#[trigger] word_bit(0u32, j),
{
}

proof fn lemma_cube_word_bits(lits: Seq<Literal>, xs: Seq<u32>, j: u32)
    requires
        lits.len() <= xs.len(),
        j < 32,
    ensures
        word_bit(cube_word(lits, xs), j) == forall|i: int| 0 <= i < lits.len() ==> accepts(lits[i], #[trigger] value_of(word_bit(xs[i], j))),
    decreases lits.len(),
{
    lemma_word_bit_ops();
    if lits.len() > 0 {
        let t = lits.drop_last();
        lemma_cube_word_bits(t, xs, j);
        let k = lits.len() - 1;
        assert(word_bit(literal_word(lits.last(), xs[k]), j) == accepts(lits[k], value_of(word_bit(xs[k], j))));
        if forall|i: int| 0 <= i < t.len() ==> accepts(t[i], #[trigger] value_of(word_bit(xs[i], j))) {
            assert forall|i: int| 0 <= i < k implies accepts(lits[i], #[trigger] value_of(word_bit(xs[i], j))) by {
                assert(lits[i] == t[i]);
            }
        }
        if forall|i: int| 0 <= i < lits.len() ==> accepts(lits[i], #[trigger] value_of(word_bit(xs[i], j))) {
            assert forall|i: int| 0 <= i < t.len() implies accepts(t[i], #[trigger] value_of(word_bit(xs[i], j))) by {
                assert(lits[i] == t[i]);
            }
        }
    }
}

/// Packed simulation computes, in each of the 32 pattern positions, the
/// sum-of-products value of the node for that pattern's fanin values.
pub proof fn lemma_packed_node_bits(cubes: Seq<Cube>, xs: Seq<u32>)
    ensures
        sop_word(cubes, xs) matches Ok(w) ==> forall|j: u32| j < 32 ==> word_bit(w, j) == sop_holds(cubes, bits_at(xs, j)),
    decreases cubes.len(),
{
    lemma_word_bit_ops();
    if cubes.len() > 0 {
        let t = cubes.drop_last();
        lemma_packed_node_bits(t, xs);
        if let Ok(w) = sop_word(cubes, xs) {
            let acc = sop_word(t, xs)->Ok_0;
            let c = cubes.last();
            assert forall|j: u32| j < 32 implies word_bit(w, j) == sop_holds(cubes, bits_at(xs, j)) by {
                let vals = bits_at(xs, j);
                lemma_cube_word_bits(c@, xs, j);
                assert(cube_admits(c@, vals) == forall|i: int| 0 <= i < c@.len() ==> accepts(c@[i], #[trigger] value_of(word_bit(xs[i], j))));
                if sop_holds(cubes, vals) {
                    let k = choose|k: int| 0 <= k < cubes.len() && #[trigger] cube_admits(cubes[k]@, vals);
                    if k < t.len() {
                        assert(t[k] == cubes[k]);
                        assert(sop_holds(t, vals));
                    }
                }
                if sop_holds(t, vals) {
                    let k = choose|k: int| 0 <= k < t.len() && #[trigger] cube_admits(t[k]@, vals);
                    assert(cubes[k] == t[k]);
                }
                assert(cubes[cubes.len() - 1] == c);
            }
        }
    }
}


proof fn lemma_sop_word_arities(cubes: Seq<Cube>, xs: Seq<u32>)
    requires
        sop_word(cubes, xs) is Ok,
    ensures
        forall|k: int| 0 <= k < cubes.len() ==> (#[trigger] cubes[k])@.len() == xs.len(),
    decreases cubes.len(),
{
    if cubes.len() > 0 {
        lemma_sop_word_arities(cubes.drop_last(), xs);
        assert forall|k: int| 0 <= k < cubes.len() implies (#[trigger] cubes[k])@.len() == xs.len() by {
            if k < cubes.len() - 1 {
                assert(cubes.drop_last()[k] == cubes[k]);
            }
        }
    }
}

proof fn lemma_sop_value_holds(cubes: Seq<Cube>, vals: Seq<LogicValue>, node: NodeId)
    requires
        forall|k: int| 0 <= k < cubes.len() ==> (#[trigger] cubes[k])@.len() == vals.len(),
    ensures
        sop_value(cubes, vals, node) == Ok::<bool, InterpretError>(sop_holds(cubes, vals)),
    decreases cubes.len(),
{
    if cubes.len() > 0 {
        let t = cubes.drop_first();
        assert forall|k: int| 0 <= k < t.len() implies (#[trigger] t[k])@.len() == vals.len() by {
            assert(t[k] == cubes[k + 1]);
        }
        lemma_sop_value_holds(t, vals, node);
        if sop_holds(t, vals) {
            let k = choose|k: int| 0 <= k < t.len() && #[trigger] cube_admits(t[k]@, vals);
            assert(cube_admits(cubes[k + 1]@, vals));
        }
        if sop_holds(cubes, vals) && !cube_admits(cubes[0]@, vals) {
            let k = choose|k: int| 0 <= k < cubes.len() && #[trigger] cube_admits(cubes[k]@, vals);
            assert(k > 0);
            assert(t[k - 1] == cubes[k]);
            assert(cube_admits(t[k - 1]@, vals));
        }
        if cube_admits(cubes[0]@, vals) {
            assert(sop_holds(cubes, vals));
        }
    }
}

/// Each of the 32 bits of a packed simulation is what simulating the node
/// on that pattern's fanin values gives.
pub proof fn lemma_packed_matches_single(cubes: Seq<Cube>, xs: Seq<u32>, node: NodeId)
    ensures
        sop_word(cubes, xs) matches Ok(w) ==> forall|j: u32| j < 32 ==> #[trigger] sop_value(cubes, bits_at(xs, j), node)
            == Ok::<bool, InterpretError>(word_bit(w, j)),
{
    if let Ok(w) = sop_word(cubes, xs) {
        lemma_packed_node_bits(cubes, xs);
        lemma_sop_word_arities(cubes, xs);
        assert forall|j: u32| j < 32 implies #[trigger] sop_value(cubes, bits_at(xs, j), node)
            == Ok::<bool, InterpretError>(word_bit(w, j)) by {
            lemma_sop_value_holds(cubes, bits_at(xs, j), node);
        }
    }
}

/// The last position of `x` in `s`, or -1.
pub open spec fn last_index_of(s: Seq<NodeId>, x: NodeId) -> int
    decreases s.len(),
{
    if s.len() == 0 {
        -1
    } else if s.last() == x {
        s.len() - 1
    } else {
        last_index_of(s.drop_last(), x)
    }
}

/// Whether node `v` is listed as a primary input.
pub open spec fn is_input(net: SimNetwork, v: usize) -> bool {
    net.inputs_seq().contains(NodeId(v))
}

/// The packed word given to input node `v`: the one at the last position
/// that lists it.
pub open spec fn input_word(net: SimNetwork, inputs: Seq<u32>, v: usize) -> u32 {
    inputs[last_index_of(net.inputs_seq(), NodeId(v))]
}

/// The fanin node indices of node `v`.
pub open spec fn fanin_ids(net: SimNetwork, v: usize) -> Seq<NodeId> {
    net.nodes_seq()[v as int].fanins@
}

/// A ranking of the nodes that every evaluation from the output drivers
/// descends: each evaluated non-input node has a rank at least 0, above the
/// rank of each of its in-range non-input fanins.
pub open spec fn rank_ok(net: SimNetwork, rank: Seq<int>) -> bool {
    let n = net.nodes_seq().len();
    &&& rank.len() == n
    &&& forall|t: int| 0 <= t < net.outputs_seq().len() ==> {
        let po = #[trigger] net.outputs_seq()[t];
        po.0 < n && fanin_ids(net, po.0).len() > 0 && fanin_ids(net, po.0)[0].0 < n
            && !is_input(net, fanin_ids(net, po.0)[0].0) ==> rank[fanin_ids(net, po.0)[0].0 as int] >= 0
    }
    &&& forall|v: usize, k: int| v < n && !is_input(net, v) && rank[v as int] >= 0 && 0 <= k < fanin_ids(net, v).len() ==> {
        let f = #[trigger] fanin_ids(net, v)[k].0;
        f < n && !is_input(net, f) ==> 0 <= rank[f as int] < rank[v as int]
    }
}

/// No node is reachable from itself through the fanins of the output
/// drivers (inputs cut the way): the evaluation of the outputs ends.
pub open spec fn outputs_acyclic(net: SimNetwork) -> bool {
    exists|rank: Seq<int>| rank_ok(net, rank)
}

/// A ranking witnessing `outputs_acyclic`.
pub open spec fn some_rank(net: SimNetwork) -> Seq<int> {
    choose|rank: Seq<int>| rank_ok(net, rank)
}

/// The measure of evaluating node `v`.
pub open spec fn eval_measure(net: SimNetwork, rank: Seq<int>, v: usize) -> nat {
    if v < net.nodes_seq().len() && !is_input(net, v) && 0 <= rank[v as int] {
        (rank[v as int] + 1) as nat
    } else {
        0
    }
}

/// The packed value of node `v` for the packed input words: inputs give
/// their word; other nodes their sum of products over their fanins' values.
pub open spec fn eval_node(net: SimNetwork, inputs: Seq<u32>, rank: Seq<int>, v: usize) -> Result<u32, InterpretError>
    decreases eval_measure(net, rank, v), 0nat,
{
    if is_input(net, v) {
        Ok(input_word(net, inputs, v))
    } else if v >= net.nodes_seq().len() || rank[v as int] < 0 {
        Err(InterpretError::UnknownNode(NodeId(v)))
    } else {
        match eval_fanins(net, inputs, rank, fanin_ids(net, v), rank[v as int]) {
            Err(e) => Err(e),
            Ok(ws) => sop_word(net.nodes_seq()[v as int].cubes@, ws),
        }
    }
}

/// The packed values of the fanins `fs` in order, stopping at the first
/// failure; `bound` is the rank they must stay below.
pub open spec fn eval_fanins(net: SimNetwork, inputs: Seq<u32>, rank: Seq<int>, fs: Seq<NodeId>, bound: int) -> Result<Seq<u32>, InterpretError>
    decreases (if bound >= 0 { bound } else { 0 }) as nat, fs.len(),
{
    if fs.len() == 0 {
        Ok(Seq::empty())
    } else {
        let f = fs[0].0;
        let first = if !is_input(net, f) && f < net.nodes_seq().len() && !(0 <= rank[f as int] < bound) {
            Err(InterpretError::UnknownNode(NodeId(f)))
        } else {
            eval_node(net, inputs, rank, f)
        };
        match first {
            Err(e) => Err(e),
            Ok(x) => match eval_fanins(net, inputs, rank, fs.drop_first(), bound) {
                Err(e) => Err(e),
                Ok(rest) => Ok(seq![x] + rest),
            },
        }
    }
}

/// The packed values of the outputs' drivers, in order, stopping at the
/// first failure.
pub open spec fn eval_outputs(net: SimNetwork, inputs: Seq<u32>, rank: Seq<int>, pos: Seq<NodeId>) -> Result<Seq<u32>, InterpretError>
    decreases pos.len(),
{
    if pos.len() == 0 {
        Ok(Seq::empty())
    } else {
        match eval_outputs(net, inputs, rank, pos.drop_last()) {
            Err(e) => Err(e),
            Ok(ws) => {
                let po = pos.last();
                if po.0 >= net.nodes_seq().len() {
                    Err(InterpretError::UnknownNode(po))
                } else if fanin_ids(net, po.0).len() == 0 {
                    Err(InterpretError::MissingOutputDriver(po))
                } else {
                    match eval_node(net, inputs, rank, fanin_ids(net, po.0)[0].0) {
                        Err(e) => Err(e),
                        Ok(w) => Ok(ws.push(w)),
                    }
                }
            },
        }
    }
}

/// The memo holds the input words and only correct node values.
spec fn memo_ok(net: SimNetwork, inputs: Seq<u32>, rank: Seq<int>, memo: Seq<Option<u32>>) -> bool {
    &&& memo.len() == net.nodes_seq().len()
    &&& forall|v: usize| v < memo.len() && is_input(net, v) ==> #[trigger] memo[v as int] == Some(input_word(net, inputs, v))
    &&& forall|v: usize| v < memo.len() && (#[trigger] memo[v as int]) is Some ==> eval_node(net, inputs, rank, v) == Ok::<u32, InterpretError>(memo[v as int]->Some_0)
}

proof fn lemma_last_index_bounds(s: Seq<NodeId>, x: NodeId)
    ensures
        -1 <= last_index_of(s, x) < s.len(),
        s.contains(x) ==> 0 <= last_index_of(s, x) && s[last_index_of(s, x)] == x,
        !s.contains(x) ==> last_index_of(s, x) == -1,
    decreases s.len(),
{
    if s.len() > 0 {
        lemma_last_index_bounds(s.drop_last(), x);
        if s.contains(x) && s.last() != x {
            let i = choose|i: int| 0 <= i < s.len() && s[i] == x;
            assert(s.drop_last()[i] == x);
        }
        if s.drop_last().contains(x) {
            let i = choose|i: int| 0 <= i < s.drop_last().len() && s.drop_last()[i] == x;
            assert(s[i] == x);
        }
        if s.last() == x {
            assert(s[s.len() - 1] == x);
        }
    }
}

/// The last position of input `v` among the primary inputs.
fn find_last_input(net: &SimNetwork, v: usize) -> (r: Option<usize>)
    ensures
        match r {
            Some(i) => i as int == last_index_of(net.inputs_seq(), NodeId(v)) && i < net.inputs_seq().len(),
            None => !is_input(*net, v),
        },
{
    let m = net.primary_inputs.len();
    let mut i = m;
    proof {
        assert(net.inputs_seq().take(m as int) =~= net.inputs_seq());
    }
    while i > 0
        invariant
            i <= m,
            m == net.inputs_seq().len(),
            last_index_of(net.inputs_seq().take(i as int), NodeId(v)) == last_index_of(net.inputs_seq(), NodeId(v)),
        decreases i,
    {
        assert(net.inputs_seq().take(i as int).drop_last() =~= net.inputs_seq().take(i - 1));
        if net.primary_inputs[i - 1].0 == v {
            return Some(i - 1);
        }
        i = i - 1;
    }
    proof {
        lemma_last_index_bounds(net.inputs_seq(), NodeId(v));
    }
    None
}

fn eval_rec(net: &SimNetwork, inputs: &[u32], memo: &mut Vec<Option<u32>>, v: usize, Ghost(rank): Ghost<Seq<int>>) -> (r: Result<u32, InterpretError>)
    requires
        rank_ok(*net, rank),
        inputs@.len() == net.inputs_seq().len(),
        memo_ok(*net, inputs@, rank, old(memo)@),
        is_input(*net, v) || v >= net.nodes_seq().len() || rank[v as int] >= 0,
    ensures
        memo_ok(*net, inputs@, rank, final(memo)@),
        r == eval_node(*net, inputs@, rank, v),
    decreases eval_measure(*net, rank, v),
{
    let n = net.nodes.len();
    if v >= n {
        match find_last_input(net, v) {
            Some(i) => {
                proof {
                    lemma_last_index_bounds(net.inputs_seq(), NodeId(v));
                }
                return Ok(inputs[i]);
            },
            None => {
                return Err(InterpretError::UnknownNode(NodeId(v)));
            },
        }
    }
    if let Some(x) = memo[v] {
        return Ok(x);
    }
    let ghost fs = fanin_ids(*net, v);
    let nf = net.nodes[v].fanins.len();
    let mut ws: Vec<u32> = Vec::new();
    assert(fs.skip(0) =~= fs);
    for k in 0..nf
        invariant
            rank_ok(*net, rank),
            inputs@.len() == net.inputs_seq().len(),
            memo_ok(*net, inputs@, rank, memo@),
            v < n,
            n == net.nodes_seq().len(),
            !is_input(*net, v),
            rank[v as int] >= 0,
            fs == fanin_ids(*net, v),
            nf == fs.len(),
            eval_fanins(*net, inputs@, rank, fs, rank[v as int]) == match eval_fanins(*net, inputs@, rank, fs.skip(k as int), rank[v as int]) {
                Err(e) => Err(e),
                Ok(rest) => Ok(ws@ + rest),
            },
    {
        let f = net.nodes[v].fanins[k].0;
        proof {
            assert(fs.skip(k as int)[0].0 == f);
            assert(fs.skip(k as int).drop_first() =~= fs.skip(k + 1));
            assert(fs[k as int].0 == f);
        }
        let x = eval_rec(net, inputs, memo, f, Ghost(rank))?;
        proof {
            assert(ws@.push(x) + eval_fanins(*net, inputs@, rank, fs.skip(k + 1), rank[v as int])->Ok_0
                =~= ws@ + (seq![x] + eval_fanins(*net, inputs@, rank, fs.skip(k + 1), rank[v as int])->Ok_0));
        }
        ws.push(x);
    }
    assert(fs.skip(nf as int) =~= Seq::<NodeId>::empty());
    assert(ws@ + Seq::<u32>::empty() =~= ws@);
    let res = simulate_node_32(&net.nodes[v], ws.as_slice())?;
    memo.set(v, Some(res));
    Ok(res)
}

proof fn lemma_eval_outputs_error_sticks(net: SimNetwork, inputs: Seq<u32>, rank: Seq<int>, pos: Seq<NodeId>, k: int)
    requires
        0 <= k <= pos.len(),
        eval_outputs(net, inputs, rank, pos.take(k)) is Err,
    ensures
        eval_outputs(net, inputs, rank, pos) == eval_outputs(net, inputs, rank, pos.take(k)),
    decreases pos.len(),
{
    if k == pos.len() {
        assert(pos.take(k) =~= pos);
    } else {
        assert(pos.drop_last().take(k) =~= pos.take(k));
        lemma_eval_outputs_error_sticks(net, inputs, rank, pos.drop_last(), k);
    }
}

/// Simulates 32 packed input patterns and returns the packed values of the
/// primary outputs' drivers. Each node is evaluated at most once.
pub fn simulate_network_32(network: &SimNetwork, input_values: &[u32]) -> (r: Result<Vec<u32>, InterpretError>)
    requires
        input_values@.len() == network.inputs_seq().len() ==> outputs_acyclic(*network),
    ensures
        input_values@.len() != network.inputs_seq().len() ==> r == Err::<Vec<u32>, InterpretError>(
            InterpretError::WrongInputCount { expected: network.inputs_seq().len() as usize, actual: input_values@.len() as usize }),
        input_values@.len() == network.inputs_seq().len() ==> match eval_outputs(*network, input_values@, some_rank(*network), network.outputs_seq()) {
            Ok(ws) => r matches Ok(out) && out@ == ws,
            Err(e) => r == Err::<Vec<u32>, InterpretError>(e),
        },
{
    if input_values.len() != network.primary_inputs.len() {
        return Err(InterpretError::WrongInputCount { expected: network.primary_inputs.len(), actual: input_values.len() });
    }
    let ghost rank = some_rank(*network);
    let n = network.nodes.len();
    let mut memo: Vec<Option<u32>> = Vec::new();
    for i in 0..n
        invariant
            memo@ == Seq::new(i as nat, |v: int| None::<u32>),
    {
        memo.push(None);
        assert(memo@ =~= Seq::new((i + 1) as nat, |v: int| None::<u32>));
    }
    let ghost pis = network.inputs_seq();
    let m = network.primary_inputs.len();
    for i in 0..m
        invariant
            n == network.nodes_seq().len(),
            m == pis.len(),
            pis == network.inputs_seq(),
            input_values@.len() == m,
            memo@.len() == n,
            forall|v: usize| v < n ==> #[trigger] memo@[v as int] == if last_index_of(pis.take(i as int), NodeId(v)) >= 0 {
                Some(input_values@[last_index_of(pis.take(i as int), NodeId(v))])
            } else {
                None
            },
    {
        let p = network.primary_inputs[i].0;
        proof {
            assert(pis.take(i + 1).drop_last() =~= pis.take(i as int));
            assert(pis.take(i + 1).last() == NodeId(p));
        }
        if p < n {
            memo.set(p, Some(input_values[i]));
        }
    }
    proof {
        assert(pis.take(m as int) =~= pis);
        assert forall|v: usize| v < n && is_input(*network, v) implies #[trigger] memo@[v as int] == Some(input_word(*network, input_values@, v)) by {
            lemma_last_index_bounds(pis, NodeId(v));
        }
        assert forall|v: usize| v < n && (#[trigger] memo@[v as int]) is Some implies eval_node(*network, input_values@, rank, v) == Ok::<u32, InterpretError>(memo@[v as int]->Some_0) by {
            lemma_last_index_bounds(pis, NodeId(v));
        }
    }
    let ghost pos = network.outputs_seq();
    let no = network.primary_outputs.len();
    let mut out: Vec<u32> = Vec::new();
    assert(pos.take(0) =~= Seq::<NodeId>::empty());
    for t in 0..no
        invariant
            rank_ok(*network, rank),
            rank == some_rank(*network),
            n == network.nodes_seq().len(),
            input_values@.len() == network.inputs_seq().len(),
            memo_ok(*network, input_values@, rank, memo@),
            pos == network.outputs_seq(),
            no == pos.len(),
            eval_outputs(*network, input_values@, rank, pos.take(t as int)) == Ok::<Seq<u32>, InterpretError>(out@),
    {
        let po = network.primary_outputs[t];
        proof {
            assert(pos.take(t + 1).drop_last() =~= pos.take(t as int));
            assert(pos.take(t + 1).last() == po);
            assert(pos[t as int] == po);
        }
        if po.0 >= n {
            proof {
                lemma_eval_outputs_error_sticks(*network, input_values@, rank, pos, t + 1);
            }
            return Err(InterpretError::UnknownNode(po));
        }
        if network.nodes[po.0].fanins.len() == 0 {
            proof {
                lemma_eval_outputs_error_sticks(*network, input_values@, rank, pos, t + 1);
            }
            return Err(InterpretError::MissingOutputDriver(po));
        }
        let d = network.nodes[po.0].fanins[0].0;
        let res = eval_rec(network, input_values, &mut memo, d, Ghost(rank));
        match res {
            Err(e) => {
                proof {
                    lemma_eval_outputs_error_sticks(*network, input_values@, rank, pos, t + 1);
                }
                return Err(e);
            },
            Ok(w) => {
                out.push(w);
            },
        }
    }
    assert(pos.take(no as int) =~= pos);
    Ok(out)
}


/// The values of the fanins `fs` in order; fails at the first fanin that
/// names no node or has no value.
pub open spec fn fanin_values(nodes: Seq<SimNode>, fs: Seq<NodeId>) -> Result<Seq<LogicValue>, InterpretError>
    decreases fs.len(),
{
    if fs.len() == 0 {
        Ok(Seq::empty())
    } else {
        match fanin_values(nodes, fs.drop_last()) {
            Err(e) => Err(e),
            Ok(vs) => {
                let f = fs.last();
                if f.0 >= nodes.len() {
                    Err(InterpretError::UnknownNode(f))
                } else {
                    match nodes[f.0 as int].value {
                        None => Err(InterpretError::MissingNodeValue(f)),
                        Some(x) => Ok(vs.push(x)),
                    }
                }
            },
        }
    }
}

/// Whether a cube of `cubes` admits the values, checking cubes in order and
/// failing at a cube of the wrong size met before an admitting one.
pub open spec fn sop_value(cubes: Seq<Cube>, vals: Seq<LogicValue>, node: NodeId) -> Result<bool, InterpretError>
    decreases cubes.len(),
{
    if cubes.len() == 0 {
        Ok(false)
    } else if cubes[0]@.len() != vals.len() {
        Err(InterpretError::CubeArityMismatch { node, cube_literals: cubes[0]@.len() as usize, fanins: vals.len() as usize })
    } else if cube_admits(cubes[0]@, vals) {
        Ok(true)
    } else {
        sop_value(cubes.drop_first(), vals, node)
    }
}

/// The value node `node` gets from its fanins' values.
pub open spec fn node_value(nodes: Seq<SimNode>, node: NodeId) -> Result<LogicValue, InterpretError> {
    if node.0 >= nodes.len() {
        Err(InterpretError::UnknownNode(node))
    } else {
        match fanin_values(nodes, nodes[node.0 as int].fanins@) {
            Err(e) => Err(e),
            Ok(vals) => match sop_value(nodes[node.0 as int].cubes@, vals, node) {
                Err(e) => Err(e),
                Ok(b) => Ok(value_of(b)),
            },
        }
    }
}

/// The nodes with node `i` given value `v`.
pub open spec fn with_value(nodes: Seq<SimNode>, i: int, v: LogicValue) -> Seq<SimNode> {
    nodes.update(i, SimNode { value: Some(v), ..nodes[i] })
}

/// The nodes after simulating node `node`, when it succeeds.
pub open spec fn after_node(nodes: Seq<SimNode>, node: NodeId) -> Seq<SimNode> {
    match node_value(nodes, node) {
        Ok(v) => with_value(nodes, node.0 as int, v),
        Err(_) => nodes,
    }
}

/// The values of node `v`'s fanins.
fn collect_fanin_values(network: &SimNetwork, v: usize) -> (r: Result<Vec<LogicValue>, InterpretError>)
    requires
        v < network.nodes_seq().len(),
    ensures
        match fanin_values(network.nodes_seq(), fanin_ids(*network, v)) {
            Ok(vs) => r matches Ok(x) && x@ == vs,
            Err(e) => r == Err::<Vec<LogicValue>, InterpretError>(e),
        },
{
    let ghost nodes = network.nodes@;
    let ghost fs = fanin_ids(*network, v);
    let nf = network.nodes[v].fanins.len();
    let mut vals: Vec<LogicValue> = Vec::new();
    assert(fs.take(0) =~= Seq::<NodeId>::empty());
    for k in 0..nf
        invariant
            nodes == network.nodes_seq(),
            v < nodes.len(),
            fs == fanin_ids(*network, v),
            nf == fs.len(),
            fanin_values(nodes, fs.take(k as int)) == Ok::<Seq<LogicValue>, InterpretError>(vals@),
    {
        let f = network.nodes[v].fanins[k];
        proof {
            assert(fs.take(k + 1).drop_last() =~= fs.take(k as int));
            assert(fs.take(k + 1).last() == f);
        }
        if f.0 >= network.nodes.len() {
            proof {
                lemma_fanin_values_error_sticks(nodes, fs, k + 1);
            }
            return Err(InterpretError::UnknownNode(f));
        }
        match network.nodes[f.0].value {
            None => {
                proof {
                    lemma_fanin_values_error_sticks(nodes, fs, k + 1);
                }
                return Err(InterpretError::MissingNodeValue(f));
            },
            Some(x) => {
                vals.push(x);
            },
        }
    }
    assert(fs.take(nf as int) =~= fs);
    Ok(vals)
}

/// Whether a cube of node `v` admits the values.
fn some_cube_admits(network: &SimNetwork, v: usize, vals: &[LogicValue]) -> (r: Result<bool, InterpretError>)
    requires
        v < network.nodes_seq().len(),
    ensures
        r == sop_value(network.nodes_seq()[v as int].cubes@, vals@, NodeId(v)),
{
    let ghost cs = network.nodes_seq()[v as int].cubes@;
    let nc = network.nodes[v].cubes.len();
    let mut ci: usize = 0;
    assert(cs.skip(0) =~= cs);
    while ci < nc
        invariant
            v < network.nodes_seq().len(),
            cs == network.nodes_seq()[v as int].cubes@,
            nc == cs.len(),
            ci <= nc,
            sop_value(cs.skip(ci as int), vals@, NodeId(v)) == sop_value(cs, vals@, NodeId(v)),
        decreases nc - ci,
    {
        let cube = &network.nodes[v].cubes[ci];
        proof {
            assert(cs.skip(ci as int)[0] == *cube);
            assert(cs.skip(ci as int).drop_first() =~= cs.skip(ci + 1));
        }
        if cube.literals.len() != vals.len() {
            return Err(InterpretError::CubeArityMismatch { node: NodeId(v), cube_literals: cube.literals.len(), fanins: vals.len() });
        }
        if cube.matches_values(vals) {
            return Ok(true);
        }
        ci = ci + 1;
    }
    assert(cs.skip(nc as int) =~= Seq::<Cube>::empty());
    Ok(false)
}

/// Simulates one node: it becomes 1 when some cube admits its fanins'
/// values, else 0.
pub fn simulate_node(network: &mut SimNetwork, node: NodeId) -> (r: Result<LogicValue, InterpretError>)
    ensures
        r == node_value(old(network).nodes_seq(), node),
        final(network).nodes_seq() == after_node(old(network).nodes_seq(), node),
        final(network).inputs_seq() == old(network).inputs_seq(),
        final(network).outputs_seq() == old(network).outputs_seq(),
{
    if node.0 >= network.nodes.len() {
        return Err(InterpretError::UnknownNode(node));
    }
    let v = node.0;
    let vals = collect_fanin_values(network, v)?;
    let found = some_cube_admits(network, v, vals.as_slice())?;
    let val = if found { LogicValue::One } else { LogicValue::Zero };
    let ghost nodes = network.nodes@;
    network.nodes[v].value = Some(val);
    proof {
        assert(network.nodes@ =~= with_value(nodes, v as int, val));
    }
    Ok(val)
}

proof fn lemma_fanin_values_error_sticks(nodes: Seq<SimNode>, fs: Seq<NodeId>, k: int)
    requires
        0 <= k <= fs.len(),
        fanin_values(nodes, fs.take(k)) is Err,
    ensures
        fanin_values(nodes, fs) == fanin_values(nodes, fs.take(k)),
    decreases fs.len(),
{
    if k == fs.len() {
        assert(fs.take(k) =~= fs);
    } else {
        assert(fs.drop_last().take(k) =~= fs.take(k));
        lemma_fanin_values_error_sticks(nodes, fs.drop_last(), k);
    }
}


/// The nodes after giving the listed inputs their values in order, with the
/// first input that names no node as the error (which stops the updates).
pub open spec fn set_inputs(nodes: Seq<SimNode>, pis: Seq<NodeId>, vals: Seq<LogicValue>) -> (Seq<SimNode>, Option<InterpretError>)
    decreases pis.len(),
{
    if pis.len() == 0 {
        (nodes, None)
    } else {
        let (n0, e0) = set_inputs(nodes, pis.drop_last(), vals);
        if e0 is Some {
            (n0, e0)
        } else {
            let p = pis.last();
            if p.0 >= n0.len() {
                (n0, Some(InterpretError::UnknownNode(p)))
            } else {
                (with_value(n0, p.0 as int, vals[pis.len() - 1]), None)
            }
        }
    }
}

/// The nodes after simulating the internal nodes of `order` in turn, with
/// the first failure as the error (which stops the updates).
pub open spec fn run_order(nodes: Seq<SimNode>, order: Seq<NodeId>) -> (Seq<SimNode>, Option<InterpretError>)
    decreases order.len(),
{
    if order.len() == 0 {
        (nodes, None)
    } else {
        let (n0, e0) = run_order(nodes, order.drop_last());
        if e0 is Some {
            (n0, e0)
        } else {
            let x = order.last();
            if x.0 >= n0.len() {
                (n0, Some(InterpretError::UnknownNode(x)))
            } else if n0[x.0 as int].kind == NodeKind::Internal {
                match node_value(n0, x) {
                    Ok(v) => (with_value(n0, x.0 as int, v), None),
                    Err(e) => (n0, Some(e)),
                }
            } else {
                (n0, None)
            }
        }
    }
}

/// The values of the outputs' drivers, in order; fails at the first output
/// naming no node or without a driver, or a driver naming no node or
/// without a value.
pub open spec fn read_outputs(nodes: Seq<SimNode>, pos: Seq<NodeId>) -> Result<Seq<LogicValue>, InterpretError>
    decreases pos.len(),
{
    if pos.len() == 0 {
        Ok(Seq::empty())
    } else {
        match read_outputs(nodes, pos.drop_last()) {
            Err(e) => Err(e),
            Ok(vs) => {
                let po = pos.last();
                if po.0 >= nodes.len() {
                    Err(InterpretError::UnknownNode(po))
                } else if nodes[po.0 as int].fanins@.len() == 0 {
                    Err(InterpretError::MissingOutputDriver(po))
                } else {
                    let d = nodes[po.0 as int].fanins@[0];
                    if d.0 >= nodes.len() {
                        Err(InterpretError::UnknownNode(d))
                    } else {
                        match nodes[d.0 as int].value {
                            None => Err(InterpretError::MissingNodeValue(d)),
                            Some(x) => Ok(vs.push(x)),
                        }
                    }
                }
            },
        }
    }
}

proof fn lemma_set_inputs_error_sticks(nodes: Seq<SimNode>, pis: Seq<NodeId>, vals: Seq<LogicValue>, k: int)
    requires
        0 <= k <= pis.len(),
        set_inputs(nodes, pis.take(k), vals).1 is Some,
    ensures
        set_inputs(nodes, pis, vals) == set_inputs(nodes, pis.take(k), vals),
    decreases pis.len(),
{
    if k == pis.len() {
        assert(pis.take(k) =~= pis);
    } else {
        assert(pis.drop_last().take(k) =~= pis.take(k));
        lemma_set_inputs_error_sticks(nodes, pis.drop_last(), vals, k);
    }
}

proof fn lemma_run_order_error_sticks(nodes: Seq<SimNode>, order: Seq<NodeId>, k: int)
    requires
        0 <= k <= order.len(),
        run_order(nodes, order.take(k)).1 is Some,
    ensures
        run_order(nodes, order) == run_order(nodes, order.take(k)),
    decreases order.len(),
{
    if k == order.len() {
        assert(order.take(k) =~= order);
    } else {
        assert(order.drop_last().take(k) =~= order.take(k));
        lemma_run_order_error_sticks(nodes, order.drop_last(), k);
    }
}

proof fn lemma_read_outputs_error_sticks(nodes: Seq<SimNode>, pos: Seq<NodeId>, k: int)
    requires
        0 <= k <= pos.len(),
        read_outputs(nodes, pos.take(k)) is Err,
    ensures
        read_outputs(nodes, pos) == read_outputs(nodes, pos.take(k)),
    decreases pos.len(),
{
    if k == pos.len() {
        assert(pos.take(k) =~= pos);
    } else {
        assert(pos.drop_last().take(k) =~= pos.take(k));
        lemma_read_outputs_error_sticks(nodes, pos.drop_last(), k);
    }
}

fn set_input_values(network: &mut SimNetwork, input_values: &[LogicValue]) -> (r: Result<(), InterpretError>)
    requires
        input_values@.len() == old(network).inputs_seq().len(),
    ensures
        final(network).inputs_seq() == old(network).inputs_seq(),
        final(network).outputs_seq() == old(network).outputs_seq(),
        ({
            let (n1, e1) = set_inputs(old(network).nodes_seq(), old(network).inputs_seq(), input_values@);
            &&& final(network).nodes_seq() == n1
            &&& r == match e1 {
                Some(e) => Err::<(), InterpretError>(e),
                None => Ok(()),
            }
        }),
{
    let ghost nodes0 = network.nodes@;
    let ghost pis = network.primary_inputs@;
    let m = network.primary_inputs.len();
    assert(pis.take(0) =~= Seq::<NodeId>::empty());
    for i in 0..m
        invariant
            m == pis.len(),
            input_values@.len() == m,
            nodes0 == old(network).nodes_seq(),
            pis == old(network).inputs_seq(),
            network.inputs_seq() == pis,
            network.outputs_seq() == old(network).outputs_seq(),
            set_inputs(nodes0, pis.take(i as int), input_values@) == (network.nodes_seq(), None::<InterpretError>),
    {
        let p = network.primary_inputs[i];
        proof {
            assert(pis.take(i + 1).drop_last() =~= pis.take(i as int));
            assert(pis.take(i + 1).last() == p);
        }
        if p.0 >= network.nodes.len() {
            proof {
                lemma_set_inputs_error_sticks(nodes0, pis, input_values@, i + 1);
            }
            return Err(InterpretError::UnknownNode(p));
        }
        let ghost before = network.nodes@;
        network.nodes[p.0].value = Some(input_values[i]);
        proof {
            assert(network.nodes@ =~= with_value(before, p.0 as int, input_values@[i as int]));
        }
    }
    assert(pis.take(m as int) =~= pis);
    Ok(())
}

fn run_node_order(network: &mut SimNetwork, node_order: &[NodeId]) -> (r: Result<(), InterpretError>)
    ensures
        final(network).inputs_seq() == old(network).inputs_seq(),
        final(network).outputs_seq() == old(network).outputs_seq(),
        ({
            let (n2, e2) = run_order(old(network).nodes_seq(), node_order@);
            &&& final(network).nodes_seq() == n2
            &&& r == match e2 {
                Some(e) => Err::<(), InterpretError>(e),
                None => Ok(()),
            }
        }),
{
    let ghost nodes0 = network.nodes@;
    let ghost ord = node_order@;
    assert(ord.take(0) =~= Seq::<NodeId>::empty());
    for j in 0..node_order.len()
        invariant
            ord == node_order@,
            nodes0 == old(network).nodes_seq(),
            network.inputs_seq() == old(network).inputs_seq(),
            network.outputs_seq() == old(network).outputs_seq(),
            run_order(nodes0, ord.take(j as int)) == (network.nodes_seq(), None::<InterpretError>),
    {
        let x = node_order[j];
        proof {
            assert(ord.take(j + 1).drop_last() =~= ord.take(j as int));
            assert(ord.take(j + 1).last() == x);
        }
        if x.0 >= network.nodes.len() {
            proof {
                lemma_run_order_error_sticks(nodes0, ord, j + 1);
            }
            return Err(InterpretError::UnknownNode(x));
        }
        if network.nodes[x.0].kind == NodeKind::Internal {
            let res = simulate_node(network, x);
            if let Err(e) = res {
                proof {
                    lemma_run_order_error_sticks(nodes0, ord, j + 1);
                }
                return Err(e);
            }
        }
    }
    assert(ord.take(node_order@.len() as int) =~= ord);
    Ok(())
}

fn read_output_values(network: &SimNetwork) -> (r: Result<Vec<LogicValue>, InterpretError>)
    ensures
        match read_outputs(network.nodes_seq(), network.outputs_seq()) {
            Ok(vs) => r matches Ok(x) && x@ == vs,
            Err(e) => r == Err::<Vec<LogicValue>, InterpretError>(e),
        },
{
    let ghost nodes = network.nodes@;
    let ghost pos = network.primary_outputs@;
    let mut out: Vec<LogicValue> = Vec::new();
    assert(pos.take(0) =~= Seq::<NodeId>::empty());
    for t in 0..network.primary_outputs.len()
        invariant
            nodes == network.nodes_seq(),
            pos == network.outputs_seq(),
            read_outputs(nodes, pos.take(t as int)) == Ok::<Seq<LogicValue>, InterpretError>(out@),
    {
        let po = network.primary_outputs[t];
        proof {
            assert(pos.take(t + 1).drop_last() =~= pos.take(t as int));
            assert(pos.take(t + 1).last() == po);
        }
        if po.0 >= network.nodes.len() {
            proof { lemma_read_outputs_error_sticks(nodes, pos, t + 1); }
            return Err(InterpretError::UnknownNode(po));
        }
        if network.nodes[po.0].fanins.len() == 0 {
            proof { lemma_read_outputs_error_sticks(nodes, pos, t + 1); }
            return Err(InterpretError::MissingOutputDriver(po));
        }
        let d = network.nodes[po.0].fanins[0];
        if d.0 >= network.nodes.len() {
            proof { lemma_read_outputs_error_sticks(nodes, pos, t + 1); }
            return Err(InterpretError::UnknownNode(d));
        }
        match network.nodes[d.0].value {
            None => {
                proof { lemma_read_outputs_error_sticks(nodes, pos, t + 1); }
                return Err(InterpretError::MissingNodeValue(d));
            },
            Some(x) => {
                out.push(x);
            },
        }
    }
    assert(pos.take(pos.len() as int) =~= pos);
    Ok(out)
}

/// Simulates the network on one input pattern: gives the primary inputs
/// their values, simulates the internal nodes of `node_order` in turn, and
/// reads the values of the primary outputs' drivers. A failure stops the
/// simulation, keeping the values set until then.
pub fn simulate_network(network: &mut SimNetwork, node_order: &[NodeId], input_values: &[LogicValue]) -> (r: Result<Vec<LogicValue>, InterpretError>)
    ensures
        final(network).inputs_seq() == old(network).inputs_seq(),
        final(network).outputs_seq() == old(network).outputs_seq(),
        input_values@.len() != old(network).inputs_seq().len() ==> {
            &&& r == Err::<Vec<LogicValue>, InterpretError>(InterpretError::WrongInputCount {
                expected: old(network).inputs_seq().len() as usize,
                actual: input_values@.len() as usize,
            })
            &&& final(network).nodes_seq() == old(network).nodes_seq()
        },
        input_values@.len() == old(network).inputs_seq().len() ==> {
            let (n1, e1) = set_inputs(old(network).nodes_seq(), old(network).inputs_seq(), input_values@);
            let (n2, e2) = run_order(n1, node_order@);
            match e1 {
                Some(e) => r == Err::<Vec<LogicValue>, InterpretError>(e) && final(network).nodes_seq() == n1,
                None => match e2 {
                    Some(e) => r == Err::<Vec<LogicValue>, InterpretError>(e) && final(network).nodes_seq() == n2,
                    None => final(network).nodes_seq() == n2 && match read_outputs(n2, old(network).outputs_seq()) {
                        Ok(vs) => r matches Ok(x) && x@ == vs,
                        Err(e) => r == Err::<Vec<LogicValue>, InterpretError>(e),
                    },
                },
            }
        },
{
    if input_values.len() != network.primary_inputs.len() {
        return Err(InterpretError::WrongInputCount { expected: network.primary_inputs.len(), actual: input_values.len() });
    }
    set_input_values(network, input_values)?;
    run_node_order(network, node_order)?;
    read_output_values(network)
}


/// The input pattern of binary values: '1' for one, '0' for zero.
pub open spec fn input_text(vals: Seq<LogicValue>) -> Seq<char> {
    Seq::new(vals.len(), |i: int| if vals[i] == LogicValue::One { '1' } else { '0' })
}

/// The first transition from `state` whose input pattern agrees with the
/// input.
pub open spec fn first_edge_from(edges: Seq<StgEdge>, state: Seq<char>, input: Seq<char>) -> Option<int>
    decreases edges.len(),
{
    if edges.len() == 0 {
        None
    } else if edges[0].from@ == state && patterns_agree(edges[0].input@, input) {
        Some(0)
    } else {
        match first_edge_from(edges.drop_first(), state, input) {
            Some(i) => Some(i + 1),
            None => None,
        }
    }
}

/// The transition taken: one from the current state, else one from "ANY",
/// else one from "*".
pub open spec fn chosen_edge(edges: Seq<StgEdge>, current: Seq<char>, input: Seq<char>) -> Option<int> {
    match first_edge_from(edges, current, input) {
        Some(i) => Some(i),
        None => match first_edge_from(edges, "ANY"@, input) {
            Some(i) => Some(i),
            None => first_edge_from(edges, "*"@, input),
        },
    }
}

fn find_edge(stg: &StgModel, state: &str, input: &str) -> (r: Option<usize>)
    ensures
        match first_edge_from(stg.edges_seq(), state@, input@) {
            Some(i) => r == Some(i as usize) && 0 <= i < stg.edges_seq().len(),
            None => r is None,
        },
{
    let ghost es = stg.edges@;
    let mut i: usize = 0;
    assert(es.skip(0) =~= es);
    while i < stg.edges.len()
        invariant
            es == stg.edges_seq(),
            i <= es.len(),
            first_edge_from(es, state@, input@) == match first_edge_from(es.skip(i as int), state@, input@) {
                Some(j) => Some(j + i),
                None => None,
            },
        decreases es.len() - i,
    {
        let e = &stg.edges[i];
        proof {
            assert(es.skip(i as int)[0] == *e);
            assert(es.skip(i as int).drop_first() =~= es.skip(i + 1));
        }
        if str_eq(e.from.as_str(), state) && equivtrans(e.input.as_str(), input) {
            return Some(i);
        }
        i = i + 1;
    }
    assert(es.skip(i as int) =~= Seq::<StgEdge>::empty());
    None
}

proof fn lemma_first_edge_from_bounds(edges: Seq<StgEdge>, state: Seq<char>, input: Seq<char>)
    ensures
        first_edge_from(edges, state, input) matches Some(i) ==> 0 <= i < edges.len(),
    decreases edges.len(),
{
    if edges.len() > 0 {
        lemma_first_edge_from_bounds(edges.drop_first(), state, input);
    }
}

/// Takes one step of the state graph on binary inputs: the first transition
/// from the current state whose input pattern agrees with the inputs, else
/// one from "ANY", else one from "*". `None` when there is none; an error
/// when its output does not have the graph's output width.
pub fn simulate_stg(stg: &mut StgModel, input_values: &[LogicValue]) -> (r: Result<Option<StgStep>, InterpretError>)
    ensures
        match chosen_edge(old(stg).edges_seq(), old(stg).current_seq(), input_text(input_values@)) {
            None => r == Ok::<Option<StgStep>, InterpretError>(None) && *final(stg) == *old(stg),
            Some(i) => {
                let e = old(stg).edges_seq()[i];
                if e.output@.len() != old(stg).output_width() {
                    &&& *final(stg) == *old(stg)
                    &&& r matches Err(InterpretError::InvalidStgOutputWidth { state, output, expected })
                    &&& state@ == e.from@
                    &&& output@ == e.output@
                    &&& expected == old(stg).output_width()
                } else {
                    &&& final(stg).current_seq() == e.to@
                    &&& final(stg).edges_seq() == old(stg).edges_seq()
                    &&& final(stg).output_width() == old(stg).output_width()
                    &&& r matches Ok(Some(step))
                    &&& step.output@ == e.output@
                    &&& step.next_state@ == e.to@
                }
            },
        },
{
    let mut input = String::new();
    for k in 0..input_values.len()
        invariant
            input@ == input_text(input_values@.take(k as int)),
            *stg == *old(stg),
    {
        let c = if input_values[k] == LogicValue::One { '1' } else { '0' };
        push_char(&mut input, c);
        assert(input@ =~= input_text(input_values@.take(k + 1)));
    }
    assert(input_values@.take(input_values@.len() as int) =~= input_values@);
    let cur = stg.current.clone();
    let mut idx = find_edge(stg, cur.as_str(), input.as_str());
    if idx.is_none() {
        idx = find_edge(stg, "ANY", input.as_str());
        if idx.is_none() {
            idx = find_edge(stg, "*", input.as_str());
        }
    }
    proof {
        lemma_first_edge_from_bounds(old(stg).edges_seq(), cur@, input@);
        lemma_first_edge_from_bounds(old(stg).edges_seq(), "ANY"@, input@);
        lemma_first_edge_from_bounds(old(stg).edges_seq(), "*"@, input@);
        assert(cur@ == old(stg).current_seq());
        assert(input@ == input_text(input_values@));
        assert(idx == match chosen_edge(old(stg).edges_seq(), old(stg).current_seq(), input_text(input_values@)) {
            Some(j) => Some(j as usize),
            None => None,
        });
    }
    match idx {
        None => Ok(None),
        Some(i) => {
            let edge_count = stg.edges.len();
            assert(edge_count == old(stg).edges_seq().len());
            let width = chars_of(stg.edges[i].output.as_str()).len();
            proof {
                let j = chosen_edge(old(stg).edges_seq(), old(stg).current_seq(), input_text(input_values@))->Some_0;
                assert(0 <= j < old(stg).edges_seq().len());
                assert(j == i as int);
                assert(width == old(stg).edges_seq()[j].output@.len());
                assert(stg.output_count == old(stg).output_width());
            }
            if width != stg.output_count {
                let from = stg.edges[i].from.clone();
                let output = stg.edges[i].output.clone();
                assert(from@ == old(stg).edges_seq()[i as int].from@);
                assert(output@ == old(stg).edges_seq()[i as int].output@);
                assert(*stg == *old(stg));
                Err(InterpretError::InvalidStgOutputWidth { state: from, output, expected: stg.output_count })
            } else {
                let next = stg.edges[i].to.clone();
                let out = chars_of(stg.edges[i].output.as_str());
                stg.current = next.clone();
                Ok(Some(StgStep { output: out, next_state: next }))
            }
        },
    }
}


/// The packed output values of a network on packed input words.
pub open spec fn packed_outputs(net: SimNetwork, inputs: Seq<u32>) -> Result<Seq<u32>, InterpretError> {
    eval_outputs(net, inputs, some_rank(net), net.outputs_seq())
}

/// The first of the first `n` positions where the two words differ.
pub open spec fn first_difference(a: Seq<u32>, b: Seq<u32>, n: nat) -> Option<nat>
    decreases n,
{
    if n == 0 {
        None
    } else {
        match first_difference(a, b, (n - 1) as nat) {
            Some(i) => Some(i),
            None => if a[n - 1] ^ b[n - 1] != 0 { Some((n - 1) as nat) } else { None },
        }
    }
}

/// The lowest set bit of a word.
pub open spec fn lowest_bit(d: u32) -> u32 {
    d & ((((!d) as int) + 1) % 0x1_0000_0000) as u32
}

/// The outcome of checking `batches` batches of 32 random patterns drawn
/// from generator state `s`: `None` when the networks agree on all of them,
/// else the first differing batch's inputs and both networks' outputs with
/// the first differing output.
pub open spec fn verify_batches(net0: SimNetwork, net1: SimNetwork, s: u32, batches: nat) -> Result<Option<(Seq<u32>, Seq<u32>, Seq<u32>, nat)>, InterpretError>
    decreases batches,
{
    if batches == 0 {
        Ok(None)
    } else {
        let (pat, s2) = random_pattern(s, net0.inputs_seq().len());
        match packed_outputs(net0, pat) {
            Err(e) => Err(e),
            Ok(o0) => match packed_outputs(net1, pat) {
                Err(e) => Err(e),
                Ok(o1) => match first_difference(o0, o1, net0.outputs_seq().len()) {
                    Some(i) => Ok(Some((pat, o0, o1, i))),
                    None => verify_batches(net0, net1, s2, (batches - 1) as nat),
                },
            },
        }
    }
}

proof fn lemma_no_self_difference(a: Seq<u32>, n: nat)
    ensures
        first_difference(a, a, n) is None,
    decreases n,
{
    if n > 0 {
        lemma_no_self_difference(a, (n - 1) as nat);
        let x = a[n - 1];
        assert(x ^ x == 0) by (bit_vector);
    }
}

/// A network checked against itself never shows a difference: the check
/// either passes or fails on a simulation error.
pub proof fn lemma_self_verification(net: SimNetwork, s: u32, batches: nat)
    ensures
        verify_batches(net, net, s, batches) is Ok ==> verify_batches(net, net, s, batches) == Ok::<
            Option<(Seq<u32>, Seq<u32>, Seq<u32>, nat)>,
            InterpretError,
        >(None),
    decreases batches,
{
    if batches > 0 {
        let (pat, s2) = random_pattern(s, net.inputs_seq().len());
        if let Ok(o) = packed_outputs(net, pat) {
            lemma_no_self_difference(o, net.outputs_seq().len());
        }
        lemma_self_verification(net, s2, (batches - 1) as nat);
    }
}

proof fn lemma_eval_outputs_len(net: SimNetwork, inputs: Seq<u32>, rank: Seq<int>, pos: Seq<NodeId>)
    ensures
        eval_outputs(net, inputs, rank, pos) matches Ok(ws) ==> ws.len() == pos.len(),
    decreases pos.len(),
{
    if pos.len() > 0 {
        lemma_eval_outputs_len(net, inputs, rank, pos.drop_last());
    }
}

proof fn lemma_random_pattern_len(s: u32, n: nat)
    ensures
        random_pattern(s, n).0.len() == n,
    decreases n,
{
    if n > 0 {
        lemma_random_pattern_len(s, (n - 1) as nat);
    }
}

/// Checks two networks for equivalence on `n_patterns / 32` batches of 32
/// random patterns from the generator seeded with `seed`. Reports the first
/// differing output of the first differing batch, with the values of the
/// pattern at the lowest differing bit.
pub fn sim_verify(network0: &SimNetwork, network1: &SimNetwork, n_patterns: usize, seed: u32) -> (r: Result<VerificationResult, InterpretError>)
    requires
        n_patterns >= 32 && network1.inputs_seq().len() == network0.inputs_seq().len()
            && network1.outputs_seq().len() == network0.outputs_seq().len()
            ==> outputs_acyclic(*network0) && outputs_acyclic(*network1),
    ensures
        network1.inputs_seq().len() != network0.inputs_seq().len() ==> r == Err::<VerificationResult, InterpretError>(
            InterpretError::WrongInputCount { expected: network0.inputs_seq().len() as usize, actual: network1.inputs_seq().len() as usize }),
        network1.inputs_seq().len() == network0.inputs_seq().len() && network1.outputs_seq().len() != network0.outputs_seq().len()
            ==> r == Err::<VerificationResult, InterpretError>(
            InterpretError::WrongInputCount { expected: network0.outputs_seq().len() as usize, actual: network1.outputs_seq().len() as usize }),
        network1.inputs_seq().len() == network0.inputs_seq().len() && network1.outputs_seq().len() == network0.outputs_seq().len()
            ==> match verify_batches(*network0, *network1, seed, (n_patterns / 32) as nat) {
            Err(e) => r == Err::<VerificationResult, InterpretError>(e),
            Ok(None) => r == Ok::<VerificationResult, InterpretError>(VerificationResult::Passed { random_vectors: ((n_patterns / 32) * 32) as usize }),
            Ok(Some((pat, o0, o1, i))) => {
                let mask = lowest_bit(o0[i as int] ^ o1[i as int]);
                &&& r matches Ok(VerificationResult::Failed(f))
                &&& f.input_pattern@ == Seq::new(pat.len(), |k: int| value_of(pat[k] & mask != 0))
                &&& f.internal_outputs@ == Seq::new(o0.len(), |k: int| value_of(o0[k] & mask != 0))
                &&& f.read_in_outputs@ == Seq::new(o1.len(), |k: int| value_of(o1[k] & mask != 0))
                &&& f.faulty_output == i
            },
        },
{
    let n_batches = n_patterns >> 5usize;
    assert(n_batches == n_patterns / 32) by (bit_vector)
        requires
            n_batches == n_patterns >> 5usize,
    ;
    let n_pi = network0.primary_inputs.len();
    let n_po = network0.primary_outputs.len();
    if network1.primary_inputs.len() != n_pi {
        return Err(InterpretError::WrongInputCount { expected: n_pi, actual: network1.primary_inputs.len() });
    }
    if network1.primary_outputs.len() != n_po {
        return Err(InterpretError::WrongInputCount { expected: n_po, actual: network1.primary_outputs.len() });
    }
    let mut rng = SisRandom::new(seed);
    let mut b: usize = 0;
    while b < n_batches
        invariant
            b <= n_batches,
            n_batches == n_patterns / 32,
            n_pi == network0.inputs_seq().len(),
            n_po == network0.outputs_seq().len(),
            network1.inputs_seq().len() == n_pi,
            network1.outputs_seq().len() == n_po,
            n_batches > 0 ==> outputs_acyclic(*network0) && outputs_acyclic(*network1),
            verify_batches(*network0, *network1, seed, n_batches as nat)
                == verify_batches(*network0, *network1, rng.state_of(), (n_batches - b) as nat),
        decreases n_batches - b,
    {
        let ghost s = rng.state_of();
        let pi_values = gen_random_pattern(n_pi, &mut rng);
        proof {
            lemma_random_pattern_len(s, n_pi as nat);
        }
        let po0 = simulate_network_32(network0, pi_values.as_slice())?;
        let po1 = simulate_network_32(network1, pi_values.as_slice())?;
        proof {
            lemma_eval_outputs_len(*network0, pi_values@, some_rank(*network0), network0.outputs_seq());
            lemma_eval_outputs_len(*network1, pi_values@, some_rank(*network1), network1.outputs_seq());
        }
        let mut oi: usize = 0;
        while oi < n_po
            invariant
                oi <= n_po,
                po0@.len() == n_po,
                po1@.len() == n_po,
                first_difference(po0@, po1@, oi as nat) is None,
                b < n_batches,
                n_batches == n_patterns / 32,
                n_pi == network0.inputs_seq().len(),
                n_po == network0.outputs_seq().len(),
                network1.inputs_seq().len() == n_pi,
                network1.outputs_seq().len() == n_po,
                verify_batches(*network0, *network1, seed, n_batches as nat)
                    == verify_batches(*network0, *network1, s, (n_batches - b) as nat),
                (pi_values@, rng.state_of()) == random_pattern(s, n_pi as nat),
                packed_outputs(*network0, pi_values@) == Ok::<Seq<u32>, InterpretError>(po0@),
                packed_outputs(*network1, pi_values@) == Ok::<Seq<u32>, InterpretError>(po1@),
            decreases n_po - oi,
        {
            let diff = po0[oi] ^ po1[oi];
            if diff != 0 {
                let neg = (!diff).wrapping_add(1u32);
                let mask = diff & neg;
                proof {
                    assert(first_difference(po0@, po1@, (oi + 1) as nat) == Some(oi as nat));
                    lemma_first_difference_sticks(po0@, po1@, (oi + 1) as nat, n_po as nat);
                    assert(neg as int == ((!diff) as int + 1) % 0x1_0000_0000);
                }
                return Ok(VerificationResult::Failed(VerificationFailure {
                    input_pattern: print_pattern(pi_values.as_slice(), mask),
                    internal_outputs: print_pattern(po0.as_slice(), mask),
                    read_in_outputs: print_pattern(po1.as_slice(), mask),
                    faulty_output: oi,
                }));
            }
            oi = oi + 1;
        }
        b = b + 1;
    }
    let total = n_batches << 5usize;
    assert(total == (n_patterns / 32) * 32) by (bit_vector)
        requires
            n_batches == n_patterns / 32,
            total == n_batches << 5usize,
    ;
    Ok(VerificationResult::Passed { random_vectors: total })
}

proof fn lemma_first_difference_sticks(a: Seq<u32>, b: Seq<u32>, k: nat, n: nat)
    requires
        k <= n,
        first_difference(a, b, k) is Some,
    ensures
        first_difference(a, b, n) == first_difference(a, b, k),
    decreases n - k,
{
    if k < n {
        lemma_first_difference_sticks(a, b, k, (n - 1) as nat);
    }
}


/// The `Debug` rendering of a node index.
pub open spec fn node_id_text(id: NodeId) -> Seq<char> {
    "NodeId("@ + decimal(id.0 as nat) + ")"@
}

/// The message of an error.
pub open spec fn error_text(e: InterpretError) -> Seq<char> {
    match e {
        InterpretError::UnknownNode(node) => "unknown simulation node "@ + node_id_text(node),
        InterpretError::InvalidInputValue(v) => "invalid binary simulation value "@ + signed_decimal(v as int),
        InterpretError::InvalidLiteral(v) => "invalid SIS cube literal value "@ + decimal(v as nat),
        InterpretError::WrongInputCount { expected, actual } => "expected "@ + decimal(expected as nat)
            + " primary-input values, got "@ + decimal(actual as nat),
        InterpretError::MissingNodeValue(node) => "simulation value for node "@ + node_id_text(node) + " is not set"@,
        InterpretError::MissingOutputDriver(node) => "primary output "@ + node_id_text(node) + " has no driving fanin"@,
        InterpretError::CubeArityMismatch { node, cube_literals, fanins } => "node "@ + node_id_text(node) + " cube has "@
            + decimal(cube_literals as nat) + " literals but node has "@ + decimal(fanins as nat) + " fanins"@,
        InterpretError::InvalidStgValue(v) => "STG simulation accepts only 0/1 values, got "@
            + if v == LogicValue::One { "One"@ } else { "Zero"@ },
        InterpretError::InvalidStgOutputWidth { state, output, expected } => "STG edge from "@ + state@ + " produced output "@
            + debug_text(output@) + " with width "@ + decimal(output@.len()) + ", expected "@ + decimal(expected as nat),
        InterpretError::MissingSisPorts { operation } => operation@ + " is blocked by missing native network support"@,
    }
}

fn push_node_id(s: &mut String, id: NodeId)
    ensures
        final(s)@ == old(s)@ + node_id_text(id),
{
    push_str(s, "NodeId(");
    push_decimal(s, id.0 as u64);
    push_str(s, ")");
    assert(final(s)@ =~= old(s)@ + node_id_text(id));
}

impl InterpretError {
    /// The message describing the error.
    pub fn message(&self) -> (r: String)
        ensures
            r@ == error_text(*self),
    {
        let mut s = String::new();
        match self {
            InterpretError::UnknownNode(node) => {
                push_str(&mut s, "unknown simulation node ");
                push_node_id(&mut s, *node);
            },
            InterpretError::InvalidInputValue(v) => {
                push_str(&mut s, "invalid binary simulation value ");
                crate::text::push_signed_decimal(&mut s, *v as i64);
            },
            InterpretError::InvalidLiteral(v) => {
                push_str(&mut s, "invalid SIS cube literal value ");
                push_decimal(&mut s, *v as u64);
            },
            InterpretError::WrongInputCount { expected, actual } => {
                push_str(&mut s, "expected ");
                push_decimal(&mut s, *expected as u64);
                push_str(&mut s, " primary-input values, got ");
                push_decimal(&mut s, *actual as u64);
            },
            InterpretError::MissingNodeValue(node) => {
                push_str(&mut s, "simulation value for node ");
                push_node_id(&mut s, *node);
                push_str(&mut s, " is not set");
            },
            InterpretError::MissingOutputDriver(node) => {
                push_str(&mut s, "primary output ");
                push_node_id(&mut s, *node);
                push_str(&mut s, " has no driving fanin");
            },
            InterpretError::CubeArityMismatch { node, cube_literals, fanins } => {
                push_str(&mut s, "node ");
                push_node_id(&mut s, *node);
                push_str(&mut s, " cube has ");
                push_decimal(&mut s, *cube_literals as u64);
                push_str(&mut s, " literals but node has ");
                push_decimal(&mut s, *fanins as u64);
                push_str(&mut s, " fanins");
            },
            InterpretError::InvalidStgValue(v) => {
                push_str(&mut s, "STG simulation accepts only 0/1 values, got ");
                if *v == LogicValue::One {
                    push_str(&mut s, "One");
                } else {
                    push_str(&mut s, "Zero");
                }
            },
            InterpretError::InvalidStgOutputWidth { state, output, expected } => {
                push_str(&mut s, "STG edge from ");
                push_str(&mut s, state.as_str());
                push_str(&mut s, " produced output ");
                let q = debug_quoted(output.as_str());
                push_str(&mut s, q.as_str());
                push_str(&mut s, " with width ");
                let w = chars_of(output.as_str()).len();
                push_decimal(&mut s, w as u64);
                push_str(&mut s, ", expected ");
                push_decimal(&mut s, *expected as u64);
            },
            InterpretError::MissingSisPorts { operation } => {
                push_str(&mut s, operation);
                push_str(&mut s, " is blocked by missing native network support");
            },
        }
        assert(s@ =~= error_text(*self));
        s
    }
}

} // verus!
