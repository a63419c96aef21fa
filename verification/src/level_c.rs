//! Levelization of a combinational circuit for state enumeration.
//!
//! Nodes are primary inputs (some of them latch outputs), primary outputs and
//! internal single-cube gates. Levelization assigns each node the round of a
//! breadth-first sweep in which all of its fanins were already known, records
//! the latch present/next-state nodes, initializes constant primary outputs,
//! and can afterwards reorder gate fanins by level while keeping the packed
//! cube literal bits aligned with their fanins.

use vstd::prelude::*;

verus! {

/// Number of simulation cycles kept per node.
pub const MAX_ELENGTH: usize = 36;
/// The flag bit that marks a node as levelized.
pub const MARKED: u8 = 4;
/// The most fanins a gate may have when its inputs are rearranged.
pub const BARRAY_LEN: usize = 16;

#[derive(Clone, Copy, Debug, Eq, PartialEq, Structural)]
pub enum LevelPortDisposition {
    BlockedByMissingNetworkNodeAndLatchApis,
}

/// How the network-level entry points stand.
pub fn level_port_disposition() -> (r: LevelPortDisposition)
    ensures
        r == LevelPortDisposition::BlockedByMissingNetworkNodeAndLatchApis,
{
    LevelPortDisposition::BlockedByMissingNetworkNodeAndLatchApis
}

/// Whether the network-level entry points are unavailable.
pub fn level_port_is_blocked() -> (r: bool)
    ensures
        r,
{
    level_port_disposition() == LevelPortDisposition::BlockedByMissingNetworkNodeAndLatchApis
}

/// A layer that the network-level entry points would need.
#[derive(Clone, Copy, Debug, Eq, PartialEq, Structural)]
pub enum LevelDependency {
    NetworkPort,
    NodePort,
    LatchPort,
    SenumMainPort,
    EnumeratePort,
}

/// Errors of levelization.
#[derive(Clone, Debug, Eq, PartialEq, Structural)]
pub enum LevelError {
    MissingDependency(LevelDependency),
    UnknownNode { node: usize },
    UnknownFanin { node: usize, fanin: usize },
    NonInputLatchEndpoint { node: usize, latch_end: usize },
    UnlevelizableCircuit { stalled_level: usize },
    TooManyFaninsForBarray { node: usize, fanins: usize },
}

impl LevelError {
    /// The error for a missing layer.
    pub fn missing(dependency: LevelDependency) -> (r: Self)
        ensures
            r == LevelError::MissingDependency(dependency),
    {
        LevelError::MissingDependency(dependency)
    }
}

/// Levelization of a whole network: needs the network layer.
pub fn level_circuit() -> (r: Result<(), LevelError>)
    ensures
        r == Err::<(), LevelError>(LevelError::MissingDependency(LevelDependency::NetworkPort)),
{
    Err(LevelError::missing(LevelDependency::NetworkPort))
}

/// Fanin rearrangement of a whole network: needs the node layer.
pub fn rearrange_gate_inputs() -> (r: Result<(), LevelError>)
    ensures
        r == Err::<(), LevelError>(LevelError::MissingDependency(LevelDependency::NodePort)),
{
    Err(LevelError::missing(LevelDependency::NodePort))
}

/// A literal of a cube: the fanin must be 0, 1, or either.
#[derive(Clone, Copy, Debug, Eq, PartialEq, Structural)]
pub enum Literal {
    Zero,
    One,
    DontCare,
}

impl Literal {
    pub fn is_one(self) -> (r: bool)
        ensures
            r == (self == Literal::One),
    {
        match self {
            Literal::One => true,
            _ => false,
        }
    }
}

#[derive(Clone, Copy, Debug, Eq, PartialEq, Structural)]
pub enum NodeKind {
    PrimaryInput,
    PrimaryOutput,
    Internal,
}

#[derive(Clone, Copy, Debug, Eq, PartialEq, Structural)]
pub enum NodeFunction {
    Zero,
    One,
    Other,
}

/// The latch that a primary input stands for: the node that ends it, its
/// initial value, and the node that computes its next state.
#[derive(Clone, Copy, Debug, Eq, PartialEq, Structural)]
pub struct LatchEnd {
    pub endpoint_node: usize,
    pub initial_value: i32,
    pub next_state_node: usize,
}

/// A node of the circuit; fanins and fanouts are node indices.
#[derive(Clone, Debug, Eq, PartialEq)]
pub struct LevelNode {
    pub kind: NodeKind,
    pub function: NodeFunction,
    pub fanins: Vec<usize>,
    pub fanouts: Vec<usize>,
    pub cube_literals: Option<Vec<Literal>>,
    pub latch_end: Option<LatchEnd>,
}

impl LevelNode {
    pub fn primary_input() -> (r: Self)
        ensures
            r.kind == NodeKind::PrimaryInput,
            r.function == NodeFunction::Other,
            r.fanins@ == Seq::<usize>::empty(),
            r.fanouts@ == Seq::<usize>::empty(),
            r.cube_literals is None,
            r.latch_end is None,
    {
        LevelNode {
            kind: NodeKind::PrimaryInput,
            function: NodeFunction::Other,
            fanins: Vec::new(),
            fanouts: Vec::new(),
            cube_literals: None,
            latch_end: None,
        }
    }

    pub fn primary_output(fanin: usize) -> (r: Self)
        ensures
            r.kind == NodeKind::PrimaryOutput,
            r.function == NodeFunction::Other,
            r.fanins@ == seq![fanin],
            r.fanouts@ == Seq::<usize>::empty(),
            r.cube_literals is None,
            r.latch_end is None,
    {
        LevelNode {
            kind: NodeKind::PrimaryOutput,
            function: NodeFunction::Other,
            fanins: vec![fanin],
            fanouts: Vec::new(),
            cube_literals: None,
            latch_end: None,
        }
    }

    pub fn constant(function: NodeFunction) -> (r: Self)
        ensures
            r.kind == NodeKind::Internal,
            r.function == function,
            r.fanins@ == Seq::<usize>::empty(),
            r.fanouts@ == Seq::<usize>::empty(),
            r.cube_literals is None,
            r.latch_end is None,
    {
        LevelNode {
            kind: NodeKind::Internal,
            function,
            fanins: Vec::new(),
            fanouts: Vec::new(),
            cube_literals: None,
            latch_end: None,
        }
    }

    pub fn internal(fanins: Vec<usize>, cube_literals: Vec<Literal>) -> (r: Self)
        ensures
            r.kind == NodeKind::Internal,
            r.function == NodeFunction::Other,
            r.fanins@ == fanins@,
            r.fanouts@ == Seq::<usize>::empty(),
            r.cube_literals == Some(cube_literals),
            r.latch_end is None,
    {
        LevelNode {
            kind: NodeKind::Internal,
            function: NodeFunction::Other,
            fanins,
            fanouts: Vec::new(),
            cube_literals: Some(cube_literals),
            latch_end: None,
        }
    }
}

/// Per-node levelization data: the packed cube, per-cycle values and flags,
/// and the level.
#[derive(Clone, Debug, Eq, PartialEq)]
pub struct NodeData {
    pub cube: u64,
    pub value: [u8; 36],
    pub jflag: [u8; 36],
    pub level: usize,
}

/// The cycle values of a constant node: every cycle holds the constant.
pub open spec fn constant_values(value: bool) -> Seq<u8> {
    Seq::new(36, |i: int| if value { 1u8 } else { 0u8 })
}

/// Cycle values or flags that are all zero.
pub open spec fn zeros36() -> Seq<u8> {
    Seq::new(36, |i: int| 0u8)
}

impl NodeData {
    /// Whether the node carries the levelized mark.
    pub open spec fn marked(&self) -> bool {
        self.jflag@[0] & MARKED != 0
    }

    pub fn new(cube: u64) -> (r: Self)
        ensures
            r.cube == cube,
            r.value@ == zeros36(),
            r.jflag@ == zeros36(),
            r.level == 0,
            !r.marked(),
    {
        let r = NodeData { cube, value: [0u8; 36], jflag: [0u8; 36], level: 0 };
        assert(r.value@ =~= zeros36());
        assert(r.jflag@ =~= zeros36());
        assert(0u8 & 4u8 == 0u8) by (bit_vector);
        r
    }

    /// Sets the mark; nothing else changes.
    pub fn mark(&mut self)
        ensures
            final(self).jflag@ == old(self).jflag@.update(0, (old(self).jflag@[0] | MARKED) as u8),
            final(self).marked(),
            final(self).cube == old(self).cube,
            final(self).value == old(self).value,
            final(self).level == old(self).level,
    {
        let j0 = self.jflag[0];
        let f = j0 | MARKED;
        assert(f & 4u8 != 0u8) by (bit_vector)
            requires
                f == (j0 | 4u8),
        ;
        self.jflag[0] = f;
    }

    /// Clears the first flag byte; nothing else changes.
    pub fn unmark(&mut self)
        ensures
            final(self).jflag@ == old(self).jflag@.update(0, 0u8),
            !final(self).marked(),
            final(self).cube == old(self).cube,
            final(self).value == old(self).value,
            final(self).level == old(self).level,
    {
        self.jflag[0] = 0;
        assert(0u8 & 4u8 == 0u8) by (bit_vector);
    }

    pub fn is_marked(&self) -> (r: bool)
        ensures
            r == self.marked(),
    {
        self.jflag[0] & MARKED != 0
    }

    /// Sets every cycle value to the constant.
    pub fn set_constant_value(&mut self, value: bool)
        ensures
            final(self).value@ == constant_values(value),
            final(self).cube == old(self).cube,
            final(self).jflag == old(self).jflag,
            final(self).level == old(self).level,
    {
        let v: u8 = if value { 1 } else { 0 };
        self.value = [v; 36];
        assert(self.value@ =~= constant_values(value));
    }
}

/// A circuit: its nodes and the indices of its primary inputs and outputs.
#[derive(Clone, Debug, Eq, PartialEq)]
pub struct LevelCircuit {
    pub nodes: Vec<LevelNode>,
    pub primary_inputs: Vec<usize>,
    pub primary_outputs: Vec<usize>,
}

/// The fanin lists of the nodes.
pub open spec fn fanin_lists(nodes: Seq<LevelNode>) -> Seq<Seq<usize>> {
    Seq::new(nodes.len(), |i: int| nodes[i].fanins@)
}

/// The number of times `x` occurs in `s`.
pub open spec fn occurrences(s: Seq<usize>, x: usize) -> nat
    decreases s.len(),
{
    if s.len() == 0 {
        0
    } else {
        occurrences(s.drop_last(), x) + if s.last() == x { 1nat } else { 0nat }
    }
}

/// The fanouts of node `f`: every node whose fanin list names `f`, in node
/// order, once per occurrence.
pub open spec fn derived_fanouts(fanins: Seq<Seq<usize>>, f: usize) -> Seq<usize>
    decreases fanins.len(),
{
    if fanins.len() == 0 {
        Seq::empty()
    } else {
        let j = (fanins.len() - 1) as usize;
        derived_fanouts(fanins.drop_last(), f) + Seq::new(occurrences(fanins.last(), f), |k: int| j)
    }
}

/// The first entry of `l` that is not below `n`.
pub open spec fn first_out_of_range(l: Seq<usize>, n: nat) -> Option<usize>
    decreases l.len(),
{
    if l.len() == 0 {
        None
    } else if l[0] >= n {
        Some(l[0])
    } else {
        first_out_of_range(l.drop_first(), n)
    }
}

impl LevelCircuit {
    pub fn new(nodes: Vec<LevelNode>, primary_inputs: Vec<usize>, primary_outputs: Vec<usize>) -> (r: Self)
        ensures
            r.nodes@ == nodes@,
            r.primary_inputs@ == primary_inputs@,
            r.primary_outputs@ == primary_outputs@,
    {
        LevelCircuit { nodes, primary_inputs, primary_outputs }
    }
}


/// The first node index, counting from `base`, whose fanin list names no
/// node, with that fanin.
pub open spec fn first_bad_fanin(fanins: Seq<Seq<usize>>, n: nat, base: nat) -> Option<(usize, usize)>
    decreases fanins.len(),
{
    if fanins.len() == 0 {
        None
    } else {
        match first_out_of_range(fanins[0], n) {
            Some(f) => Some((base as usize, f)),
            None => first_bad_fanin(fanins.drop_first(), n, base + 1),
        }
    }
}

/// Two nodes agree on everything but their fanouts.
pub open spec fn same_but_fanouts(a: LevelNode, b: LevelNode) -> bool {
    &&& a.kind == b.kind
    &&& a.function == b.function
    &&& a.fanins@ == b.fanins@
    &&& a.cube_literals == b.cube_literals
    &&& a.latch_end == b.latch_end
}

/// Two nodes agree on everything but their fanins.
pub open spec fn same_but_fanins(a: LevelNode, b: LevelNode) -> bool {
    &&& a.kind == b.kind
    &&& a.function == b.function
    &&& a.fanouts@ == b.fanouts@
    &&& a.cube_literals == b.cube_literals
    &&& a.latch_end == b.latch_end
}

/// The first entry of `l` not below `n`.
fn find_out_of_range(l: &Vec<usize>, n: usize) -> (r: Option<usize>)
    ensures
        r == first_out_of_range(l@, n as nat),
{
    let mut k: usize = 0;
    assert(l@.skip(0) =~= l@);
    while k < l.len()
        invariant
            k <= l@.len(),
            first_out_of_range(l@.skip(k as int), n as nat) == first_out_of_range(l@, n as nat),
        decreases l@.len() - k,
    {
        assert(l@.skip(k as int).drop_first() =~= l@.skip(k + 1));
        if l[k] >= n {
            return Some(l[k]);
        }
        k = k + 1;
    }
    None
}

impl LevelCircuit {
    /// The circuit with every fanout list rebuilt from the fanin lists; fails
    /// on the first fanin that names no node.
    pub fn with_derived_fanouts(self) -> (r: Result<Self, LevelError>)
        ensures
            match first_bad_fanin(fanin_lists(self.nodes@), self.nodes@.len(), 0) {
                Some((v, f)) => r == Err::<Self, LevelError>(LevelError::UnknownFanin { node: v, fanin: f }),
                None => r matches Ok(c) && {
                    &&& c.primary_inputs@ == self.primary_inputs@
                    &&& c.primary_outputs@ == self.primary_outputs@
                    &&& c.nodes@.len() == self.nodes@.len()
                    &&& forall|i: int| 0 <= i < self.nodes@.len() ==> {
                        &&& same_but_fanouts(#[trigger] c.nodes@[i], self.nodes@[i])
                        &&& c.nodes@[i].fanouts@ == derived_fanouts(fanin_lists(self.nodes@), i as usize)
                    }
                },
            },
    {
        let ghost orig = self.nodes@;
        let ghost fl = fanin_lists(orig);
        let mut c = self;
        let n = c.nodes.len();
        for i in 0..n
            invariant
                n == c.nodes@.len() == orig.len(),
                fl == fanin_lists(orig),
                orig == self.nodes@,
                c.primary_inputs@ == self.primary_inputs@,
                c.primary_outputs@ == self.primary_outputs@,
                forall|v: int| 0 <= v < n ==> same_but_fanouts(#[trigger] c.nodes@[v], orig[v]),
                forall|v: int| 0 <= v < i ==> (#[trigger] c.nodes@[v]).fanouts@ == Seq::<usize>::empty(),
        {
            c.nodes[i].fanouts.clear();
        }
        let mut v: usize = 0;
        assert(fl.skip(0) =~= fl);
        assert(fl.take(0) =~= Seq::<Seq<usize>>::empty());
        while v < n
            invariant
                v <= n,
                n == c.nodes@.len() == orig.len() == fl.len(),
                fl == fanin_lists(orig),
                orig == self.nodes@,
                c.primary_inputs@ == self.primary_inputs@,
                c.primary_outputs@ == self.primary_outputs@,
                forall|u: int| 0 <= u < n ==> same_but_fanouts(#[trigger] c.nodes@[u], orig[u]),
                first_bad_fanin(fl.skip(v as int), n as nat, v as nat) == first_bad_fanin(fl, n as nat, 0),
                forall|f: int| 0 <= f < n ==> (#[trigger] c.nodes@[f]).fanouts@ == derived_fanouts(fl.take(v as int), f as usize),
            decreases n - v,
        {
            proof {
                assert(fl.skip(v as int)[0] == fl[v as int]);
                assert(fl.skip(v as int).drop_first() =~= fl.skip(v + 1));
            }
            let bad = find_out_of_range(&c.nodes[v].fanins, n);
            if let Some(f) = bad {
                return Err(LevelError::UnknownFanin { node: v, fanin: f });
            }
            let cnt = c.nodes[v].fanins.len();
            let ghost fv = fl[v as int];
            let mut k: usize = 0;
            assert(fv.take(0) =~= Seq::<usize>::empty());
            while k < cnt
                invariant
                    k <= cnt,
                    v < n,
                    n == c.nodes@.len() == orig.len() == fl.len(),
                    fl == fanin_lists(orig),
                    orig == self.nodes@,
                    c.primary_inputs@ == self.primary_inputs@,
                    c.primary_outputs@ == self.primary_outputs@,
                    fv == fl[v as int],
                    cnt == fv.len(),
                    first_out_of_range(fv, n as nat) is None,
                    forall|u: int| 0 <= u < n ==> same_but_fanouts(#[trigger] c.nodes@[u], orig[u]),
                    forall|f: int| 0 <= f < n ==> (#[trigger] c.nodes@[f]).fanouts@ == derived_fanouts(fl.take(v as int), f as usize)
                        + Seq::new(occurrences(fv.take(k as int), f as usize), |m: int| v),
                decreases cnt - k,
            {
                let fin = c.nodes[v].fanins[k];
                proof {
                    lemma_no_out_of_range(fv, n as nat, k as int);
                    assert(fv.take(k + 1).drop_last() =~= fv.take(k as int));
                }
                c.nodes[fin].fanouts.push(v);
                proof {
                    assert forall|f: int| 0 <= f < n implies (#[trigger] c.nodes@[f]).fanouts@ == derived_fanouts(fl.take(v as int), f as usize)
                        + Seq::new(occurrences(fv.take(k + 1), f as usize), |m: int| v) by {
                        if f == fin {
                            assert(Seq::new(occurrences(fv.take(k + 1), f as usize), |m: int| v) =~= Seq::new(occurrences(fv.take(k as int), f as usize), |m: int| v).push(v));
                        } else {
                            assert(Seq::new(occurrences(fv.take(k + 1), f as usize), |m: int| v) =~= Seq::new(occurrences(fv.take(k as int), f as usize), |m: int| v));
                        }
                    }
                }
                k = k + 1;
            }
            proof {
                assert(fv.take(cnt as int) =~= fv);
                assert(fl.take(v + 1).drop_last() =~= fl.take(v as int));
                assert forall|f: int| 0 <= f < n implies (#[trigger] c.nodes@[f]).fanouts@ == derived_fanouts(fl.take(v + 1), f as usize) by {
                    assert(fl.take(v + 1).last() == fv);
                }
            }
            v = v + 1;
        }
        proof {
            assert(fl.take(n as int) =~= fl);
            assert(fl.skip(n as int) =~= Seq::<Seq<usize>>::empty());
        }
        Ok(c)
    }
}

proof fn lemma_no_out_of_range(l: Seq<usize>, n: nat, k: int)
    requires
        first_out_of_range(l, n) is None,
        0 <= k < l.len(),
    ensures
        l[k] < n,
    decreases l.len(),
{
    if k > 0 {
        lemma_no_out_of_range(l.drop_first(), n, k - 1);
    }
}


/// Bit `j` of a packed cube.
pub open spec fn cube_bit(c: u64, j: u64) -> bool {
    (c >> j) & 1u64 == 1u64
}

/// The packed cube of a literal list: bit `i` is set for each literal `i`
/// below 64 that is `One`.
pub open spec fn packed_cube(lits: Seq<Literal>) -> u64
    decreases lits.len(),
{
    if lits.len() == 0 {
        0
    } else {
        let p = packed_cube(lits.drop_last());
        if lits.len() - 1 < 64 && lits.last() == Literal::One {
            p | (1u64 << ((lits.len() - 1) as u64))
        } else {
            p
        }
    }
}

proof fn lemma_or_bit(x: u64, b: u64)
    by (bit_vector)
    requires
        b < 64,
    ensures
        forall|j: u64| j < 64 ==> (cube_bit(x | (1u64 << b), j) <==> (cube_bit(x, j) || j == b)),
{
}

proof fn lemma_zero_bits()
    by (bit_vector)
    ensures
        forall|j: u64| j < 64 ==> !cube_bit(0u64, j),
{
}

/// Bit `j` of the packed cube is set exactly when literal `j` exists and is
/// `One`.
pub proof fn lemma_packed_cube_bits(lits: Seq<Literal>)
    ensures
        forall|j: u64| j < 64 ==> (cube_bit(packed_cube(lits), j) <==> ((j as int) < lits.len() && lits[j as int] == Literal::One)),
    decreases lits.len(),
{
    if lits.len() == 0 {
        lemma_zero_bits();
    } else {
        let t = lits.drop_last();
        lemma_packed_cube_bits(t);
        let i = lits.len() - 1;
        if i < 64 && lits.last() == Literal::One {
            lemma_or_bit(packed_cube(t), i as u64);
        }
        assert forall|j: u64| j < 64 implies (cube_bit(packed_cube(lits), j) <==> ((j as int) < lits.len() && lits[j as int] == Literal::One)) by {
            if (j as int) < i {
                assert(lits[j as int] == t[j as int]);
            }
        }
    }
}

/// Packs the literals into a cube word, literal `i` in bit `i`.
pub fn packed_cube_from_literals(literals: &[Literal]) -> (r: u64)
    ensures
        r == packed_cube(literals@),
        forall|j: u64| j < 64 ==> (cube_bit(r, j) <==> ((j as int) < literals@.len() && literals@[j as int] == Literal::One)),
{
    let mut packed: u64 = 0;
    let n = literals.len();
    assert(literals@.take(0) =~= Seq::<Literal>::empty());
    for i in 0..n
        invariant
            n == literals@.len(),
            packed == packed_cube(literals@.take(i as int)),
    {
        assert(literals@.take(i + 1).drop_last() =~= literals@.take(i as int));
        if i < 64 && literals[i].is_one() {
            let b = i as u64;
            packed = packed | (1u64 << b);
        }
    }
    assert(literals@.take(n as int) =~= literals@);
    proof {
        lemma_packed_cube_bits(literals@);
    }
    packed
}

/// The cube a node starts with: its packed literals, or 1 when it has none.
pub open spec fn initial_cube(node: LevelNode) -> u64 {
    match node.cube_literals {
        Some(l) => if l@.len() > 0 { packed_cube(l@) } else { 1 },
        None => 1,
    }
}

pub fn initial_cube_for_node(node: &LevelNode) -> (r: u64)
    ensures
        r == initial_cube(*node),
{
    match &node.cube_literals {
        Some(l) => {
            if l.len() > 0 {
                packed_cube_from_literals(l.as_slice())
            } else {
                1
            }
        },
        None => 1,
    }
}

/// The cube with bits `l` and `r` exchanged.
pub open spec fn swap_bits(c: u64, l: u64, r: u64) -> u64 {
    if l == r {
        c
    } else {
        let lm = 1u64 << l;
        let rm = 1u64 << r;
        let c1 = if c & rm != 0 { c | lm } else { c & !lm };
        if c & lm != 0 { c1 | rm } else { c1 & !rm }
    }
}

/// Exchanging two bits moves each to the other's place and keeps the rest.
pub proof fn lemma_swap_bits(c: u64, l: u64, r: u64)
    by (bit_vector)
    requires
        l < 64,
        r < 64,
    ensures
        forall|j: u64| j < 64 ==> cube_bit(swap_bits(c, l, r), j) == (if j == l {
            cube_bit(c, r)
        } else if j == r {
            cube_bit(c, l)
        } else {
            cube_bit(c, j)
        }),
{
}

/// Exchanges bits `left` and `right` of the cube.
pub fn swap_cube_bits(cube: &mut u64, left: usize, right: usize)
    requires
        left < 64,
        right < 64,
    ensures
        *final(cube) == swap_bits(*old(cube), left as u64, right as u64),
        forall|j: u64| j < 64 ==> cube_bit(*final(cube), j) == (if j == left as u64 {
            cube_bit(*old(cube), right as u64)
        } else if j == right as u64 {
            cube_bit(*old(cube), left as u64)
        } else {
            cube_bit(*old(cube), j)
        }),
{
    proof {
        lemma_swap_bits(*cube, left as u64, right as u64);
    }
    if left == right {
        return;
    }
    let l = left as u64;
    let r = right as u64;
    let left_mask = 1u64 << l;
    let right_mask = 1u64 << r;
    let left_set = *cube & left_mask != 0;
    let right_set = *cube & right_mask != 0;
    if right_set {
        *cube = *cube | left_mask;
    } else {
        *cube = *cube & !left_mask;
    }
    if left_set {
        *cube = *cube | right_mask;
    } else {
        *cube = *cube & !right_mask;
    }
    assert(*cube == swap_bits(*old(cube), l, r));
}


/// The first dangling reference among the nodes (counted from `base`): a
/// fanin naming no node, or else a fanout naming no node.
pub open spec fn node_list_error(nodes: Seq<LevelNode>, n: nat, base: nat) -> Option<LevelError>
    decreases nodes.len(),
{
    if nodes.len() == 0 {
        None
    } else {
        match first_out_of_range(nodes[0].fanins@, n) {
            Some(f) => Some(LevelError::UnknownFanin { node: base as usize, fanin: f }),
            None => match first_out_of_range(nodes[0].fanouts@, n) {
                Some(x) => Some(LevelError::UnknownNode { node: x }),
                None => node_list_error(nodes.drop_first(), n, base + 1),
            },
        }
    }
}

/// The first dangling reference of the circuit: a primary input or output
/// naming no node, then the node lists in order.
pub open spec fn node_refs_error(c: LevelCircuit) -> Option<LevelError> {
    match first_out_of_range(c.primary_inputs@ + c.primary_outputs@, c.nodes@.len()) {
        Some(v) => Some(LevelError::UnknownNode { node: v }),
        None => node_list_error(c.nodes@, c.nodes@.len(), 0),
    }
}

/// Every reference of the circuit names a node.
pub open spec fn refs_in_range(c: LevelCircuit) -> bool {
    let n = c.nodes@.len();
    &&& forall|k: int| 0 <= k < c.primary_inputs@.len() ==> c.primary_inputs@[k] < n
    &&& forall|k: int| 0 <= k < c.primary_outputs@.len() ==> c.primary_outputs@[k] < n
    &&& forall|v: int, k: int| 0 <= v < n && 0 <= k < c.nodes@[v].fanins@.len() ==> c.nodes@[v].fanins@[k] < n
    &&& forall|v: int, k: int| 0 <= v < n && 0 <= k < c.nodes@[v].fanouts@.len() ==> c.nodes@[v].fanouts@[k] < n
}

proof fn lemma_first_out_of_range_append(a: Seq<usize>, b: Seq<usize>, n: nat)
    ensures
        first_out_of_range(a + b, n) == match first_out_of_range(a, n) {
            Some(x) => Some(x),
            None => first_out_of_range(b, n),
        },
    decreases a.len(),
{
    if a.len() > 0 {
        assert((a + b).drop_first() =~= a.drop_first() + b);
        lemma_first_out_of_range_append(a.drop_first(), b, n);
    } else {
        assert(a + b =~= b);
    }
}

proof fn lemma_node_list_in_range(nodes: Seq<LevelNode>, n: nat, base: nat)
    requires
        node_list_error(nodes, n, base) is None,
    ensures
        forall|v: int, k: int| 0 <= v < nodes.len() && 0 <= k < nodes[v].fanins@.len() ==> nodes[v].fanins@[k] < n,
        forall|v: int, k: int| 0 <= v < nodes.len() && 0 <= k < nodes[v].fanouts@.len() ==> nodes[v].fanouts@[k] < n,
    decreases nodes.len(),
{
    if nodes.len() > 0 {
        lemma_node_list_in_range(nodes.drop_first(), n, base + 1);
        assert forall|v: int, k: int| 0 <= v < nodes.len() && 0 <= k < nodes[v].fanins@.len() implies nodes[v].fanins@[k] < n by {
            if v == 0 {
                lemma_no_out_of_range(nodes[0].fanins@, n, k);
            } else {
                assert(nodes[v] == nodes.drop_first()[v - 1]);
            }
        }
        assert forall|v: int, k: int| 0 <= v < nodes.len() && 0 <= k < nodes[v].fanouts@.len() implies nodes[v].fanouts@[k] < n by {
            if v == 0 {
                lemma_no_out_of_range(nodes[0].fanouts@, n, k);
            } else {
                assert(nodes[v] == nodes.drop_first()[v - 1]);
            }
        }
    }
}

/// A circuit without dangling references has every reference in range.
pub proof fn lemma_refs_in_range(c: LevelCircuit)
    requires
        node_refs_error(c) is None,
    ensures
        refs_in_range(c),
{
    let n = c.nodes@.len();
    lemma_first_out_of_range_append(c.primary_inputs@, c.primary_outputs@, n);
    lemma_node_list_in_range(c.nodes@, n, 0);
    assert forall|k: int| 0 <= k < c.primary_inputs@.len() implies c.primary_inputs@[k] < n by {
        lemma_no_out_of_range(c.primary_inputs@, n, k);
    }
    assert forall|k: int| 0 <= k < c.primary_outputs@.len() implies c.primary_outputs@[k] < n by {
        lemma_no_out_of_range(c.primary_outputs@, n, k);
    }
}

fn validate_node_refs(circuit: &LevelCircuit) -> (r: Result<(), LevelError>)
    ensures
        r == match node_refs_error(*circuit) {
            Some(e) => Err::<(), LevelError>(e),
            None => Ok(()),
        },
{
    let n = circuit.nodes.len();
    proof {
        lemma_first_out_of_range_append(circuit.primary_inputs@, circuit.primary_outputs@, n as nat);
    }
    if let Some(node) = find_out_of_range(&circuit.primary_inputs, n) {
        return Err(LevelError::UnknownNode { node });
    }
    if let Some(node) = find_out_of_range(&circuit.primary_outputs, n) {
        return Err(LevelError::UnknownNode { node });
    }
    let ghost nodes = circuit.nodes@;
    let mut v: usize = 0;
    assert(nodes.skip(0) =~= nodes);
    while v < n
        invariant
            v <= n,
            n == nodes.len(),
            nodes == circuit.nodes@,
            first_out_of_range(circuit.primary_inputs@ + circuit.primary_outputs@, n as nat) is None,
            node_list_error(nodes.skip(v as int), n as nat, v as nat) == node_list_error(nodes, n as nat, 0),
        decreases n - v,
    {
        assert(nodes.skip(v as int)[0] == nodes[v as int]);
        assert(nodes.skip(v as int).drop_first() =~= nodes.skip(v + 1));
        if let Some(fanin) = find_out_of_range(&circuit.nodes[v].fanins, n) {
            return Err(LevelError::UnknownFanin { node: v, fanin });
        }
        if let Some(node) = find_out_of_range(&circuit.nodes[v].fanouts, n) {
            return Err(LevelError::UnknownNode { node });
        }
        v = v + 1;
    }
    assert(nodes.skip(n as int) =~= Seq::<LevelNode>::empty());
    Ok(())
}


/// Fanins paired with the cube bit at their position.
pub open spec fn fanin_pairs(fanins: Seq<usize>, cube: u64) -> Seq<(usize, bool)> {
    Seq::new(fanins.len(), |p: int| (fanins[p], cube_bit(cube, p as u64)))
}

/// The level of the node a pair refers to.
pub open spec fn pair_level(data: Seq<NodeData>, p: (usize, bool)) -> usize {
    data[p.0 as int].level
}

/// One inner pass of the exchange sort: position `j` is compared with each
/// later position `k` below `n`, and the two are exchanged when `j`'s level
/// is higher.
pub open spec fn exchange_pass(s: Seq<(usize, bool)>, data: Seq<NodeData>, j: int, k: int, n: int) -> Seq<(usize, bool)>
    decreases n - k,
{
    if k >= n {
        s
    } else {
        let s2 = if pair_level(data, s[j]) > pair_level(data, s[k]) {
            s.update(j, s[k]).update(k, s[j])
        } else {
            s
        };
        exchange_pass(s2, data, j, k + 1, n)
    }
}

/// The exchange sort by level, from position `j` on.
pub open spec fn exchange_sort(s: Seq<(usize, bool)>, data: Seq<NodeData>, j: int, n: int) -> Seq<(usize, bool)>
    decreases n - j,
{
    if j + 1 >= n {
        s
    } else {
        exchange_sort(exchange_pass(s, data, j, j + 1, n), data, j + 1, n)
    }
}

/// The (fanin, cube bit) pairs of a node after its inputs are rearranged.
pub open spec fn rearranged_pairs(fanins: Seq<usize>, cube: u64, data: Seq<NodeData>) -> Seq<(usize, bool)> {
    exchange_sort(fanin_pairs(fanins, cube), data, 0, fanins.len() as int)
}

/// Whether the inputs of a node get rearranged: gates with 2 to 16 fanins.
pub open spec fn gets_rearranged(node: LevelNode) -> bool {
    node.kind == NodeKind::Internal && 2 <= node.fanins@.len() <= BARRAY_LEN
}

/// The first gate (counted from `base`) with more fanins than the
/// rearrangement can take.
pub open spec fn first_overfull(nodes: Seq<LevelNode>, base: nat) -> Option<usize>
    decreases nodes.len(),
{
    if nodes.len() == 0 {
        None
    } else if nodes[0].kind == NodeKind::Internal && nodes[0].fanins@.len() > BARRAY_LEN {
        Some(base as usize)
    } else {
        first_overfull(nodes.drop_first(), base + 1)
    }
}

/// Node `v` ends with fanins `fanins1` and cube `cube1`, having started with
/// node `node` and cube `cube0`: rearranged if `active` and it is a gate of 2
/// to 16 fanins, otherwise untouched.
pub open spec fn rearranged_as(node: LevelNode, cube0: u64, data: Seq<NodeData>, active: bool, fanins1: Seq<usize>, cube1: u64) -> bool {
    if active && gets_rearranged(node) {
        let sorted = rearranged_pairs(node.fanins@, cube0, data);
        &&& fanins1 == Seq::new(sorted.len(), |p: int| sorted[p].0)
        &&& forall|j: u64| j < 64 ==> cube_bit(cube1, j) == if (j as int) < sorted.len() {
            sorted[j as int].1
        } else {
            cube_bit(cube0, j)
        }
    } else {
        fanins1 == node.fanins@ && cube1 == cube0
    }
}

proof fn lemma_exchange_pass_len(s: Seq<(usize, bool)>, data: Seq<NodeData>, j: int, k: int, n: int)
    requires
        0 <= j < s.len(),
        0 <= k,
        n <= s.len(),
    ensures
        exchange_pass(s, data, j, k, n).len() == s.len(),
    decreases n - k,
{
    if k < n {
        let s2 = if pair_level(data, s[j]) > pair_level(data, s[k]) {
            s.update(j, s[k]).update(k, s[j])
        } else {
            s
        };
        lemma_exchange_pass_len(s2, data, j, k + 1, n);
    }
}

proof fn lemma_first_overfull_bounds(nodes: Seq<LevelNode>, base: nat)
    requires
        base + nodes.len() <= usize::MAX + 1,
    ensures
        first_overfull(nodes, base) matches Some(x) ==> base <= x < base + nodes.len(),
    decreases nodes.len(),
{
    if nodes.len() > 0 {
        lemma_first_overfull_bounds(nodes.drop_first(), base + 1);
    }
}

proof fn lemma_exchange_sort_len(s: Seq<(usize, bool)>, data: Seq<NodeData>, j: int, n: int)
    requires
        0 <= j,
        n <= s.len(),
    ensures
        exchange_sort(s, data, j, n).len() == s.len(),
    decreases n - j,
{
    if j + 1 < n {
        lemma_exchange_pass_len(s, data, j, j + 1, n);
        lemma_exchange_sort_len(exchange_pass(s, data, j, j + 1, n), data, j + 1, n);
    }
}

/// Reorders the fanins of each gate with 2 to 16 fanins by the level of the
/// fanin nodes, exchanging the cube bits along with the fanins. Stops with an
/// error at the first gate with more fanins; the gates before it stay
/// rearranged.
pub fn rearrange_gate_inputs_in_model(circuit: &mut LevelCircuit, data: &mut Vec<NodeData>) -> (r: Result<(), LevelError>)
    requires
        old(data)@.len() >= old(circuit).nodes@.len(),
    ensures
        match node_refs_error(*old(circuit)) {
            Some(e) => {
                &&& r == Err::<(), LevelError>(e)
                &&& *final(circuit) == *old(circuit)
                &&& final(data)@ == old(data)@
            },
            None => {
                let n = old(circuit).nodes@.len();
                let stop = first_overfull(old(circuit).nodes@, 0);
                let stop_at: int = match stop {
                    Some(v) => v as int,
                    None => n as int,
                };
                &&& r == match stop {
                    Some(v) => Err::<(), LevelError>(LevelError::TooManyFaninsForBarray {
                        node: v,
                        fanins: old(circuit).nodes@[v as int].fanins@.len() as usize,
                    }),
                    None => Ok(()),
                }
                &&& final(circuit).primary_inputs@ == old(circuit).primary_inputs@
                &&& final(circuit).primary_outputs@ == old(circuit).primary_outputs@
                &&& final(circuit).nodes@.len() == n
                &&& final(data)@.len() == old(data)@.len()
                &&& forall|v: int| 0 <= v < n ==> same_but_fanins(#[trigger] final(circuit).nodes@[v], old(circuit).nodes@[v])
                &&& forall|v: int| 0 <= v < old(data)@.len() ==> {
                    &&& (#[trigger] final(data)@[v]).level == old(data)@[v].level
                    &&& final(data)@[v].value == old(data)@[v].value
                    &&& final(data)@[v].jflag == old(data)@[v].jflag
                }
                &&& forall|v: int| n <= v < old(data)@.len() ==> #[trigger] final(data)@[v] == old(data)@[v]
                &&& forall|v: int| 0 <= v < n ==> rearranged_as(old(circuit).nodes@[v], old(data)@[v].cube, old(data)@,
                    v < stop_at, (#[trigger] final(circuit).nodes@[v]).fanins@, final(data)@[v].cube)
            },
        },
{
    validate_node_refs(circuit)?;
    proof {
        lemma_refs_in_range(*circuit);
    }
    let ghost c0 = *circuit;
    let ghost d0 = data@;
    let n = circuit.nodes.len();
    let mut v: usize = 0;
    assert(c0.nodes@.skip(0) =~= c0.nodes@);
    while v < n
        invariant
            v <= n,
            n == c0.nodes@.len() == circuit.nodes@.len(),
            c0 == *old(circuit),
            d0 == old(data)@,
            node_refs_error(c0) is None,
            refs_in_range(c0),
            data@.len() == d0.len(),
            d0.len() >= n,
            circuit.primary_inputs@ == c0.primary_inputs@,
            circuit.primary_outputs@ == c0.primary_outputs@,
            first_overfull(c0.nodes@.skip(v as int), v as nat) == first_overfull(c0.nodes@, 0),
            first_overfull(c0.nodes@, 0) is None || first_overfull(c0.nodes@, 0).unwrap() >= v,
            forall|u: int| 0 <= u < n ==> same_but_fanins(#[trigger] circuit.nodes@[u], c0.nodes@[u]),
            forall|u: int| 0 <= u < d0.len() ==> {
                &&& (#[trigger] data@[u]).level == d0[u].level
                &&& data@[u].value == d0[u].value
                &&& data@[u].jflag == d0[u].jflag
            },
            forall|u: int| n <= u < d0.len() ==> #[trigger] data@[u] == d0[u],
            forall|u: int| 0 <= u < n ==> rearranged_as(c0.nodes@[u], d0[u].cube, d0, u < v,
                (#[trigger] circuit.nodes@[u]).fanins@, data@[u].cube),
        decreases n - v,
    {
        assert(c0.nodes@.skip(v as int)[0] == c0.nodes@[v as int]);
        assert(c0.nodes@.skip(v as int).drop_first() =~= c0.nodes@.skip(v + 1));
        proof {
            lemma_first_overfull_bounds(c0.nodes@.skip(v + 1), (v + 1) as nat);
        }
        let is_internal = circuit.nodes[v].kind == NodeKind::Internal;
        let fanin_count = circuit.nodes[v].fanins.len();
        if is_internal && fanin_count > BARRAY_LEN {
            return Err(LevelError::TooManyFaninsForBarray { node: v, fanins: fanin_count });
        }
        if is_internal && fanin_count > 1 {
            let ghost node0 = c0.nodes@[v as int];
            let ghost s0 = fanin_pairs(node0.fanins@, d0[v as int].cube);
            let ghost cn = circuit.nodes@;
            let ghost dv = data@;
            let mut cube = data[v].cube;
            let ghost mut s = s0;
            assert(circuit.nodes@[v as int].fanins@ =~= Seq::new(s.len(), |p: int| s[p].0));
            let mut j: usize = 0;
            while j < fanin_count - 1
                invariant
                    v < n,
                    2 <= fanin_count <= 16,
                    j <= fanin_count - 1,
                    n == c0.nodes@.len() == circuit.nodes@.len() == cn.len(),
                    refs_in_range(c0),
                    dv == data@,
                    dv.len() == d0.len(),
                    d0.len() >= n,
                    forall|u: int| 0 <= u < d0.len() ==> (#[trigger] dv[u]).level == d0[u].level,
                    node0 == c0.nodes@[v as int],
                    same_but_fanins(cn[v as int], node0),
                    fanin_count == node0.fanins@.len(),
                    s0 == fanin_pairs(node0.fanins@, d0[v as int].cube),
                    s.len() == fanin_count,
                    circuit.primary_inputs@ == c0.primary_inputs@,
                    circuit.primary_outputs@ == c0.primary_outputs@,
                    forall|u: int| 0 <= u < n && u != v ==> #[trigger] circuit.nodes@[u] == cn[u],
                    same_but_fanins(circuit.nodes@[v as int], cn[v as int]),
                    circuit.nodes@[v as int].fanins@ == Seq::new(s.len(), |p: int| s[p].0),
                    forall|p: int| 0 <= p < s.len() ==> s[p].0 < n,
                    forall|b: u64| b < 64 ==> cube_bit(cube, b) == if (b as int) < s.len() { s[b as int].1 } else { cube_bit(d0[v as int].cube, b) },
                    exchange_sort(s, d0, j as int, fanin_count as int) == exchange_sort(s0, d0, 0, fanin_count as int),
                decreases fanin_count - j,
            {
                let ghost sj = s;
                let mut k: usize = j + 1;
                while k < fanin_count
                    invariant
                        v < n,
                        2 <= fanin_count <= 16,
                        j < k <= fanin_count,
                        j < fanin_count - 1,
                        n == circuit.nodes@.len() == cn.len(),
                        dv == data@,
                        dv.len() == d0.len(),
                        d0.len() >= n,
                        forall|u: int| 0 <= u < d0.len() ==> (#[trigger] dv[u]).level == d0[u].level,
                        s.len() == fanin_count,
                        circuit.primary_inputs@ == c0.primary_inputs@,
                        circuit.primary_outputs@ == c0.primary_outputs@,
                        forall|u: int| 0 <= u < n && u != v ==> #[trigger] circuit.nodes@[u] == cn[u],
                        same_but_fanins(circuit.nodes@[v as int], cn[v as int]),
                        circuit.nodes@[v as int].fanins@ == Seq::new(s.len(), |p: int| s[p].0),
                        forall|p: int| 0 <= p < s.len() ==> s[p].0 < n,
                        forall|b: u64| b < 64 ==> cube_bit(cube, b) == if (b as int) < s.len() { s[b as int].1 } else { cube_bit(d0[v as int].cube, b) },
                        exchange_pass(s, d0, j as int, k as int, fanin_count as int) == exchange_pass(sj, d0, j as int, j + 1, fanin_count as int),
                    decreases fanin_count - k,
                {
                    let left = circuit.nodes[v].fanins[j];
                    let right = circuit.nodes[v].fanins[k];
                    assert(left == s[j as int].0 && right == s[k as int].0);
                    if data[left].level > data[right].level {
                        let ghost old_cube = cube;
                        let ghost fs = circuit.nodes@[v as int].fanins@;
                        circuit.nodes[v].fanins[j] = right;
                        circuit.nodes[v].fanins[k] = left;
                        swap_cube_bits(&mut cube, j, k);
                        proof {
                            s = s.update(j as int, s[k as int]).update(k as int, s[j as int]);
                            assert(circuit.nodes@[v as int].fanins@ =~= Seq::new(s.len(), |p: int| s[p].0));
                        }
                    }
                    k = k + 1;
                }
                proof {
                    lemma_exchange_pass_len(sj, d0, j as int, j + 1, fanin_count as int);
                }
                j = j + 1;
            }
            proof {
                lemma_exchange_sort_len(s0, d0, 0, fanin_count as int);
            }
            data[v].cube = cube;
        }
        v = v + 1;
    }
    Ok(())
}


/// The result of levelization: per-node data, the latch present-state
/// inputs with their initial values and next-state nodes, the nodes that
/// drive real primary outputs, and the nodes whose values vary, in the order
/// they were levelized.
#[derive(Clone, Debug, Eq, PartialEq)]
pub struct Levelization {
    pub data: Vec<NodeData>,
    pub present_state: Vec<usize>,
    pub initial_state: Vec<i32>,
    pub next_state: Vec<usize>,
    pub real_primary_outputs: Vec<usize>,
    pub varying_nodes: Vec<usize>,
}

/// The state of the levelization sweep between rounds: which nodes are
/// marked, their levels, the queue of nodes waiting for their fanins, the
/// varying nodes found so far, and the number of rounds done.
pub struct Sweep {
    pub marked: Seq<bool>,
    pub levels: Seq<nat>,
    pub queue: Seq<usize>,
    pub varying: Seq<usize>,
    pub round: nat,
}

/// `q` followed by each element of `xs` that is not yet in it.
pub open spec fn append_unique(q: Seq<usize>, xs: Seq<usize>) -> Seq<usize>
    decreases xs.len(),
{
    if xs.len() == 0 {
        q
    } else {
        let q2 = append_unique(q, xs.drop_last());
        if q2.contains(xs.last()) { q2 } else { q2.push(xs.last()) }
    }
}

/// `q` followed by the fanouts of the nodes `vs`, in order, each node once.
pub open spec fn push_fanouts(c: LevelCircuit, q: Seq<usize>, vs: Seq<usize>) -> Seq<usize>
    decreases vs.len(),
{
    if vs.len() == 0 {
        q
    } else {
        append_unique(push_fanouts(c, q, vs.drop_last()), c.nodes@[vs.last() as int].fanouts@)
    }
}

/// Whether every fanin of node `v` is marked.
pub open spec fn fanins_marked(c: LevelCircuit, marked: Seq<bool>, v: usize) -> bool {
    forall|k: int| 0 <= k < c.nodes@[v as int].fanins@.len() ==> marked[c.nodes@[v as int].fanins@[k] as int]
}

/// The nodes of `q` whose fanins are all marked (`ready`), or the others.
pub open spec fn select_ready(c: LevelCircuit, marked: Seq<bool>, q: Seq<usize>, ready: bool) -> Seq<usize>
    decreases q.len(),
{
    if q.len() == 0 {
        q
    } else {
        let rest = select_ready(c, marked, q.drop_last(), ready);
        if fanins_marked(c, marked, q.last()) == ready { rest.push(q.last()) } else { rest }
    }
}

/// The internal nodes among `vs`, in order.
pub open spec fn select_internal(c: LevelCircuit, vs: Seq<usize>) -> Seq<usize>
    decreases vs.len(),
{
    if vs.len() == 0 {
        vs
    } else {
        let rest = select_internal(c, vs.drop_last());
        if c.nodes@[vs.last() as int].kind == NodeKind::Internal { rest.push(vs.last()) } else { rest }
    }
}

/// One round of the sweep: the queued nodes whose fanins are all marked get
/// the next level and the mark; their fanouts are queued, followed by the
/// nodes that must wait. `None` when no queued node is ready.
pub open spec fn sweep_step(c: LevelCircuit, s: Sweep) -> Option<Sweep> {
    let sched = select_ready(c, s.marked, s.queue, true);
    let defer = select_ready(c, s.marked, s.queue, false);
    if sched.len() == 0 {
        None
    } else {
        let r = s.round + 1;
        Some(Sweep {
            marked: Seq::new(s.marked.len(), |v: int| s.marked[v] || sched.contains(v as usize)),
            levels: Seq::new(s.levels.len(), |v: int| if sched.contains(v as usize) { r } else { s.levels[v] }),
            queue: append_unique(push_fanouts(c, Seq::empty(), sched), defer),
            varying: s.varying + select_internal(c, sched),
            round: r,
        })
    }
}

/// Rounds of the sweep until the queue is empty (at most `fuel` of them);
/// `Err` with the level that could not be completed when a round stalls.
pub open spec fn sweep_run(c: LevelCircuit, s: Sweep, fuel: nat) -> Result<Sweep, nat>
    decreases fuel,
{
    if s.queue.len() == 0 || fuel == 0 {
        Ok(s)
    } else {
        match sweep_step(c, s) {
            None => Err(s.round + 1),
            Some(s2) => sweep_run(c, s2, (fuel - 1) as nat),
        }
    }
}

/// Whether node `v` is a constant driving a primary output.
pub open spec fn is_constant_output_driver(c: LevelCircuit, v: int) -> bool {
    drives_constant_among(c, c.primary_outputs@, v)
}

/// Whether node `p` exists and has `v` as its first fanin.
pub open spec fn first_fanin_is(c: LevelCircuit, p: usize, v: int) -> bool {
    p < c.nodes@.len() && c.nodes@[p as int].fanins@.len() > 0 && c.nodes@[p as int].fanins@[0] == v
}

/// Whether node `v` is a constant that is the first fanin of one of the
/// outputs `pos`.
pub open spec fn drives_constant_among(c: LevelCircuit, pos: Seq<usize>, v: int) -> bool {
    &&& c.nodes@[v].kind == NodeKind::Internal
    &&& c.nodes@[v].fanins@.len() == 0
    &&& exists|t: int| 0 <= t < pos.len() && #[trigger] first_fanin_is(c, pos[t], v)
}

/// The primary inputs that are not latch outputs, in order.
pub open spec fn plain_inputs(c: LevelCircuit, pis: Seq<usize>) -> Seq<usize>
    decreases pis.len(),
{
    if pis.len() == 0 {
        pis
    } else {
        let rest = plain_inputs(c, pis.drop_last());
        if c.nodes@[pis.last() as int].latch_end is None { rest.push(pis.last()) } else { rest }
    }
}

/// The latches behind the primary inputs that are latch outputs, in order,
/// with the input node.
pub open spec fn input_latches(c: LevelCircuit, pis: Seq<usize>) -> Seq<(usize, LatchEnd)>
    decreases pis.len(),
{
    if pis.len() == 0 {
        Seq::empty()
    } else {
        let rest = input_latches(c, pis.drop_last());
        match c.nodes@[pis.last() as int].latch_end {
            Some(le) => rest.push((pis.last(), le)),
            None => rest,
        }
    }
}

/// The nodes driving primary outputs that are not latch inputs, in order.
pub open spec fn real_output_drivers(c: LevelCircuit, pos: Seq<usize>) -> Seq<usize>
    decreases pos.len(),
{
    if pos.len() == 0 {
        pos
    } else {
        let rest = real_output_drivers(c, pos.drop_last());
        let p = c.nodes@[pos.last() as int];
        if p.fanins@.len() > 0 && p.latch_end is None { rest.push(p.fanins@[0]) } else { rest }
    }
}

/// Whether the latch behind an input is well formed: its end node exists and
/// has the next-state node among its fanins.
pub open spec fn latch_end_ok(c: LevelCircuit, le: LatchEnd) -> bool {
    le.endpoint_node < c.nodes@.len() && c.nodes@[le.endpoint_node as int].fanins@.contains(le.next_state_node)
}

/// The first primary input whose latch is not well formed.
pub open spec fn first_bad_latch(c: LevelCircuit, pis: Seq<usize>) -> Option<LevelError>
    decreases pis.len(),
{
    if pis.len() == 0 {
        None
    } else {
        match c.nodes@[pis[0] as int].latch_end {
            Some(le) => if latch_end_ok(c, le) {
                first_bad_latch(c, pis.drop_first())
            } else {
                Some(LevelError::NonInputLatchEndpoint { node: pis[0], latch_end: le.endpoint_node })
            },
            None => first_bad_latch(c, pis.drop_first()),
        }
    }
}

/// The sweep state once the inputs and the constant outputs are marked.
pub open spec fn initial_sweep(c: LevelCircuit) -> Sweep {
    let n = c.nodes@.len();
    Sweep {
        marked: Seq::new(n, |v: int| c.primary_inputs@.contains(v as usize) || is_constant_output_driver(c, v)),
        levels: Seq::new(n, |v: int| 0nat),
        queue: push_fanouts(c, Seq::empty(), c.primary_inputs@),
        varying: plain_inputs(c, c.primary_inputs@),
        round: 0,
    }
}

/// The cycle values a node starts the simulation with.
pub open spec fn initial_values(c: LevelCircuit, v: int) -> Seq<u8> {
    if is_constant_output_driver(c, v) {
        constant_values(c.nodes@[v].function == NodeFunction::One)
    } else {
        zeros36()
    }
}

/// The per-node data after levelization, node by node.
pub open spec fn is_levelized_data(c: LevelCircuit, levels: Seq<nat>, data: Seq<NodeData>) -> bool {
    &&& data.len() == c.nodes@.len()
    &&& forall|v: int| 0 <= v < data.len() ==> {
        &&& (#[trigger] data[v]).cube == initial_cube(c.nodes@[v])
        &&& data[v].value@ == initial_values(c, v)
        &&& data[v].jflag@ == zeros36()
        &&& data[v].level == levels[v]
    }
}

/// Fanout lists are the reverse of fanin lists, and primary inputs have no
/// fanins: the shape on which the sweep is guaranteed to finish.
pub open spec fn levelizable_shape(c: LevelCircuit) -> bool {
    &&& forall|v: int, k: int| 0 <= v < c.nodes@.len() && 0 <= k < c.nodes@[v].fanouts@.len()
        && #[trigger] c.nodes@[v].fanouts@[k] < c.nodes@.len()
        ==> c.nodes@[c.nodes@[v].fanouts@[k] as int].fanins@.contains(v as usize)
    &&& forall|t: int| 0 <= t < c.primary_inputs@.len() && #[trigger] c.primary_inputs@[t] < c.nodes@.len()
        ==> c.nodes@[c.primary_inputs@[t] as int].fanins@.len() == 0
}


/// The flag bytes of a node: the mark in the first byte, nothing else.
pub open spec fn mark_flags(marked: bool) -> Seq<u8> {
    if marked { zeros36().update(0, MARKED) } else { zeros36() }
}

proof fn lemma_flag_bits()
    by (bit_vector)
    ensures
        (0u8 | 4u8) == 4u8,
        (4u8 | 4u8) == 4u8,
        (4u8 & 4u8) != 0u8,
        (0u8 & 4u8) == 0u8,
{
}

/// The number of unmarked nodes.
pub open spec fn count_unmarked(m: Seq<bool>) -> nat
    decreases m.len(),
{
    if m.len() == 0 {
        0
    } else {
        count_unmarked(m.drop_last()) + if m.last() { 0nat } else { 1nat }
    }
}

/// No element occurs twice.
pub open spec fn no_dup(q: Seq<usize>) -> bool {
    forall|i: int, j: int| 0 <= i < j < q.len() ==> q[i] != q[j]
}

/// What holds of every state the sweep passes through: queued nodes are
/// distinct, in range and unmarked, and every marked node's fanins are
/// marked.
pub open spec fn sweep_inv(c: LevelCircuit, s: Sweep) -> bool {
    let n = c.nodes@.len();
    &&& s.marked.len() == n
    &&& s.levels.len() == n
    &&& no_dup(s.queue)
    &&& forall|i: int| 0 <= i < s.queue.len() ==> #[trigger] s.queue[i] < n && !s.marked[s.queue[i] as int]
    &&& forall|v: usize| v < n && #[trigger] s.marked[v as int] ==> fanins_marked(c, s.marked, v)
}

/// The working state of the sweep.
struct SweepState {
    data: Vec<NodeData>,
    queue: Vec<usize>,
    queued: Vec<bool>,
    varying: Vec<usize>,
    level: usize,
}

/// The working state stands for the sweep state `s`.
spec fn state_matches(c: LevelCircuit, st: SweepState, s: Sweep) -> bool {
    let n = c.nodes@.len();
    &&& st.data@.len() == n
    &&& st.queued@.len() == n
    &&& s.marked.len() == n
    &&& s.levels.len() == n
    &&& st.queue@ == s.queue
    &&& st.varying@ == s.varying
    &&& st.level == s.round
    &&& forall|v: int| 0 <= v < n ==> #[trigger] st.queued@[v] == s.queue.contains(v as usize)
    &&& forall|v: int| 0 <= v < n ==> {
        &&& (#[trigger] st.data@[v]).cube == initial_cube(c.nodes@[v])
        &&& st.data@[v].value@ == initial_values(c, v)
        &&& st.data@[v].level == s.levels[v]
        &&& st.data@[v].jflag@ == mark_flags(s.marked[v])
    }
}

proof fn lemma_append_unique_contains(q: Seq<usize>, xs: Seq<usize>)
    ensures
        forall|x: usize| #[trigger] append_unique(q, xs).contains(x) <==> (q.contains(x) || xs.contains(x)),
    decreases xs.len(),
{
    if xs.len() > 0 {
        lemma_append_unique_contains(q, xs.drop_last());
        assert forall|x: usize| append_unique(q, xs).contains(x) <==> (q.contains(x) || xs.contains(x)) by {
            if xs.drop_last().contains(x) {
                let i = choose|i: int| 0 <= i < xs.drop_last().len() && xs.drop_last()[i] == x;
                assert(xs[i] == x);
            }
            if xs.contains(x) {
                let i = choose|i: int| 0 <= i < xs.len() && xs[i] == x;
                if i < xs.len() - 1 {
                    assert(xs.drop_last()[i] == x);
                }
            }
            let q2 = append_unique(q, xs.drop_last());
            if !q2.contains(xs.last()) {
                if q2.push(xs.last()).contains(x) {
                    let i = choose|i: int| 0 <= i < q2.push(xs.last()).len() && q2.push(xs.last())[i] == x;
                    if i < q2.len() {
                        assert(q2[i] == x);
                    }
                }
                if q2.contains(x) {
                    let i = choose|i: int| 0 <= i < q2.len() && q2[i] == x;
                    assert(q2.push(xs.last())[i] == x);
                }
                assert(q2.push(xs.last())[q2.len() as int] == xs.last());
            }
        }
    }
}

proof fn lemma_append_unique_no_dup(q: Seq<usize>, xs: Seq<usize>)
    requires
        no_dup(q),
    ensures
        no_dup(append_unique(q, xs)),
    decreases xs.len(),
{
    if xs.len() > 0 {
        lemma_append_unique_no_dup(q, xs.drop_last());
        let q2 = append_unique(q, xs.drop_last());
        if !q2.contains(xs.last()) {
            assert forall|i: int, j: int| 0 <= i < j < q2.push(xs.last()).len() implies q2.push(xs.last())[i] != q2.push(xs.last())[j] by {
                if j == q2.len() {
                    if q2[i] == xs.last() {
                        assert(q2.contains(xs.last()));
                    }
                }
            }
        }
    }
}

proof fn lemma_append_unique_in_range(q: Seq<usize>, xs: Seq<usize>, n: nat)
    requires
        forall|i: int| 0 <= i < q.len() ==> q[i] < n,
        forall|i: int| 0 <= i < xs.len() ==> xs[i] < n,
    ensures
        forall|i: int| 0 <= i < append_unique(q, xs).len() ==> append_unique(q, xs)[i] < n,
    decreases xs.len(),
{
    if xs.len() > 0 {
        lemma_append_unique_in_range(q, xs.drop_last(), n);
        let q2 = append_unique(q, xs.drop_last());
        assert(xs.last() < n);
        assert forall|i: int| 0 <= i < q2.push(xs.last()).len() implies q2.push(xs.last())[i] < n by {
            if i < q2.len() {
                assert(q2.push(xs.last())[i] == q2[i]);
            }
        }
    }
}

/// Appends to the queue each node of `list` that is not queued yet.
fn append_unqueued(list: &Vec<usize>, queue: &mut Vec<usize>, queued: &mut Vec<bool>, n: usize)
    requires
        old(queued)@.len() == n,
        forall|i: int| 0 <= i < list@.len() ==> list@[i] < n,
        forall|v: int| 0 <= v < n ==> #[trigger] old(queued)@[v] == old(queue)@.contains(v as usize),
        forall|i: int| 0 <= i < old(queue)@.len() ==> old(queue)@[i] < n,
    ensures
        final(queue)@ == append_unique(old(queue)@, list@),
        final(queued)@.len() == n,
        forall|v: int| 0 <= v < n ==> #[trigger] final(queued)@[v] == final(queue)@.contains(v as usize),
        forall|i: int| 0 <= i < final(queue)@.len() ==> final(queue)@[i] < n,
{
    let ghost q0 = queue@;
    assert(list@.take(0) =~= Seq::<usize>::empty());
    for k in 0..list.len()
        invariant
            queued@.len() == n,
            forall|i: int| 0 <= i < list@.len() ==> list@[i] < n,
            queue@ == append_unique(q0, list@.take(k as int)),
            forall|v: int| 0 <= v < n ==> #[trigger] queued@[v] == queue@.contains(v as usize),
            forall|i: int| 0 <= i < queue@.len() ==> queue@[i] < n,
    {
        let x = list[k];
        assert(list@.take(k + 1).drop_last() =~= list@.take(k as int));
        assert(list@.take(k + 1).last() == x);
        if !queued[x] {
            let ghost before = queue@;
            queued.set(x, true);
            queue.push(x);
            proof {
                assert forall|v: int| 0 <= v < n implies #[trigger] queued@[v] == queue@.contains(v as usize) by {
                    if v as usize == x {
                        assert(queue@[before.len() as int] == x);
                    } else {
                        if queue@.contains(v as usize) {
                            let i = choose|i: int| 0 <= i < queue@.len() && queue@[i] == v as usize;
                            assert(before[i] == v as usize);
                        }
                        if before.contains(v as usize) {
                            let i = choose|i: int| 0 <= i < before.len() && before[i] == v as usize;
                            assert(queue@[i] == v as usize);
                        }
                    }
                }
            }
        }
    }
    assert(list@.take(list@.len() as int) =~= list@);
}


proof fn lemma_select_ready_contains(c: LevelCircuit, m: Seq<bool>, q: Seq<usize>, b: bool)
    ensures
        forall|x: usize| #[trigger] select_ready(c, m, q, b).contains(x) <==> (q.contains(x) && fanins_marked(c, m, x) == b),
    decreases q.len(),
{
    if q.len() > 0 {
        let t = q.drop_last();
        lemma_select_ready_contains(c, m, t, b);
        let rest = select_ready(c, m, t, b);
        assert forall|x: usize| select_ready(c, m, q, b).contains(x) <==> (q.contains(x) && fanins_marked(c, m, x) == b) by {
            if q.contains(x) {
                let i = choose|i: int| 0 <= i < q.len() && q[i] == x;
                if i < t.len() {
                    assert(t[i] == x);
                }
            }
            if t.contains(x) {
                let i = choose|i: int| 0 <= i < t.len() && t[i] == x;
                assert(q[i] == x);
            }
            if fanins_marked(c, m, q.last()) == b {
                let r = rest.push(q.last());
                assert(r[rest.len() as int] == q.last());
                if r.contains(x) {
                    let i = choose|i: int| 0 <= i < r.len() && r[i] == x;
                    if i < rest.len() {
                        assert(rest[i] == x);
                    }
                }
                if rest.contains(x) {
                    let i = choose|i: int| 0 <= i < rest.len() && rest[i] == x;
                    assert(r[i] == x);
                }
            }
        }
    }
}

/// Whether `x` is among the fanouts of node `y`.
pub open spec fn fans_out_to(c: LevelCircuit, y: usize, x: usize) -> bool {
    c.nodes@[y as int].fanouts@.contains(x)
}

/// Whether `x` is among the fanouts of some node of `vs`.
pub open spec fn some_fans_out_to(c: LevelCircuit, vs: Seq<usize>, x: usize) -> bool {
    exists|i: int| 0 <= i < vs.len() && #[trigger] fans_out_to(c, vs[i], x)
}

proof fn lemma_push_fanouts_contains(c: LevelCircuit, q: Seq<usize>, vs: Seq<usize>)
    ensures
        forall|x: usize| #[trigger] push_fanouts(c, q, vs).contains(x) <==> (q.contains(x) || some_fans_out_to(c, vs, x)),
    decreases vs.len(),
{
    if vs.len() > 0 {
        let t = vs.drop_last();
        lemma_push_fanouts_contains(c, q, t);
        lemma_append_unique_contains(push_fanouts(c, q, t), c.nodes@[vs.last() as int].fanouts@);
        assert(push_fanouts(c, q, vs) == append_unique(push_fanouts(c, q, t), c.nodes@[vs.last() as int].fanouts@));
        let pa = push_fanouts(c, q, t);
        let fo = c.nodes@[vs.last() as int].fanouts@;
        assert forall|x: usize| push_fanouts(c, q, vs).contains(x) <==> (q.contains(x) || some_fans_out_to(c, vs, x)) by {
            assert(push_fanouts(c, q, vs).contains(x) == (pa.contains(x) || fo.contains(x)));
            assert(pa.contains(x) == (q.contains(x) || some_fans_out_to(c, t, x)));
            assert(fo.contains(x) == fans_out_to(c, vs.last(), x));
            if some_fans_out_to(c, vs, x) {
                let i = choose|i: int| 0 <= i < vs.len() && #[trigger] fans_out_to(c, vs[i], x);
                if i < t.len() {
                    assert(t[i] == vs[i]);
                    assert(fans_out_to(c, t[i], x));
                    assert(some_fans_out_to(c, t, x));
                } else {
                    assert(fans_out_to(c, vs.last(), x));
                }
            }
            if some_fans_out_to(c, t, x) {
                let i = choose|i: int| 0 <= i < t.len() && #[trigger] fans_out_to(c, t[i], x);
                assert(vs[i] == t[i]);
                assert(fans_out_to(c, vs[i], x));
            }
            let li = vs.len() - 1;
            assert(vs[li] == vs.last());
            if fans_out_to(c, vs.last(), x) {
                assert(fans_out_to(c, vs[li], x));
            }
        }
    }
}

proof fn lemma_push_fanouts_shape(c: LevelCircuit, q: Seq<usize>, vs: Seq<usize>)
    requires
        refs_in_range(c),
        no_dup(q),
        forall|i: int| 0 <= i < q.len() ==> q[i] < c.nodes@.len(),
        forall|i: int| 0 <= i < vs.len() ==> vs[i] < c.nodes@.len(),
    ensures
        no_dup(push_fanouts(c, q, vs)),
        forall|i: int| 0 <= i < push_fanouts(c, q, vs).len() ==> push_fanouts(c, q, vs)[i] < c.nodes@.len(),
    decreases vs.len(),
{
    if vs.len() > 0 {
        let t = vs.drop_last();
        lemma_push_fanouts_shape(c, q, t);
        let fo = c.nodes@[vs.last() as int].fanouts@;
        lemma_append_unique_no_dup(push_fanouts(c, q, t), fo);
        assert forall|k: int| 0 <= k < fo.len() implies fo[k] < c.nodes@.len() by {
            assert(c.nodes@[vs.last() as int].fanouts@[k] < c.nodes@.len());
        }
        lemma_append_unique_in_range(push_fanouts(c, q, t), fo, c.nodes@.len());
    }
}

proof fn lemma_count_unmarked_bounds(m: Seq<bool>)
    ensures
        count_unmarked(m) <= m.len(),
        (exists|v: int| 0 <= v < m.len() && !m[v]) ==> count_unmarked(m) >= 1,
    decreases m.len(),
{
    if m.len() > 0 {
        lemma_count_unmarked_bounds(m.drop_last());
        if exists|v: int| 0 <= v < m.len() && !m[v] {
            let v = choose|v: int| 0 <= v < m.len() && !m[v];
            if v < m.len() - 1 {
                assert(!m.drop_last()[v]);
            }
        }
    }
}

proof fn lemma_count_unmarked_decreases(m: Seq<bool>, m2: Seq<bool>)
    requires
        m.len() == m2.len(),
        forall|i: int| 0 <= i < m.len() && m[i] ==> m2[i],
    ensures
        count_unmarked(m2) <= count_unmarked(m),
        (exists|v: int| 0 <= v < m.len() && !m[v] && m2[v]) ==> count_unmarked(m2) < count_unmarked(m),
    decreases m.len(),
{
    if m.len() > 0 {
        lemma_count_unmarked_decreases(m.drop_last(), m2.drop_last());
        if exists|v: int| 0 <= v < m.len() && !m[v] && m2[v] {
            let v = choose|v: int| 0 <= v < m.len() && !m[v] && m2[v];
            if v < m.len() - 1 {
                assert(!m.drop_last()[v] && m2.drop_last()[v]);
            }
        }
    }
}

/// A round of the sweep keeps its invariant, and marks at least one more
/// node.
proof fn lemma_sweep_step(c: LevelCircuit, s: Sweep)
    requires
        refs_in_range(c),
        levelizable_shape(c),
        sweep_inv(c, s),
        sweep_step(c, s) is Some,
    ensures
        sweep_inv(c, sweep_step(c, s).unwrap()),
        count_unmarked(sweep_step(c, s).unwrap().marked) < count_unmarked(s.marked),
        sweep_step(c, s).unwrap().round == s.round + 1,
{
    let n = c.nodes@.len();
    let sched = select_ready(c, s.marked, s.queue, true);
    let defer = select_ready(c, s.marked, s.queue, false);
    let s2 = sweep_step(c, s).unwrap();
    let m = s.marked;
    let m2 = s2.marked;
    lemma_select_ready_contains(c, m, s.queue, true);
    lemma_select_ready_contains(c, m, s.queue, false);
    assert forall|i: int| 0 <= i < sched.len() implies sched[i] < n && !m[sched[i] as int] by {
        let x = sched[i];
        assert(sched.contains(x));
        assert(s.queue.contains(x));
        let j = choose|j: int| 0 <= j < s.queue.len() && s.queue[j] == x;
        assert(s.queue[j] < n);
    }
    let pf = push_fanouts(c, Seq::empty(), sched);
    lemma_push_fanouts_shape(c, Seq::empty(), sched);
    lemma_push_fanouts_contains(c, Seq::empty(), sched);
    assert forall|i: int| 0 <= i < defer.len() implies defer[i] < n by {
        let x = defer[i];
        assert(defer.contains(x));
        assert(s.queue.contains(x));
        let j = choose|j: int| 0 <= j < s.queue.len() && s.queue[j] == x;
        assert(s.queue[j] < n);
    }
    lemma_append_unique_no_dup(pf, defer);
    lemma_append_unique_in_range(pf, defer, n);
    lemma_append_unique_contains(pf, defer);
    let q2 = s2.queue;
    // Newly queued nodes are unmarked.
    assert forall|i: int| 0 <= i < q2.len() implies #[trigger] q2[i] < n && !m2[q2[i] as int] by {
        let x = q2[i];
        assert(q2.contains(x));
        if defer.contains(x) {
            assert(s.queue.contains(x));
            assert(!fanins_marked(c, m, x));
            let j = choose|j: int| 0 <= j < s.queue.len() && s.queue[j] == x;
            assert(!m[x as int]);
            assert(!sched.contains(x));
        } else {
            assert(pf.contains(x));
            assert(!Seq::<usize>::empty().contains(x));
            let y_i = choose|y_i: int| 0 <= y_i < sched.len() && #[trigger] fans_out_to(c, sched[y_i], x);
            let y = sched[y_i];
            let k = choose|k: int| 0 <= k < c.nodes@[y as int].fanouts@.len() && c.nodes@[y as int].fanouts@[k] == x;
            assert(c.nodes@[y as int].fanouts@[k] < n);
            assert(c.nodes@[x as int].fanins@.contains(y));
            let fk = choose|fk: int| 0 <= fk < c.nodes@[x as int].fanins@.len() && c.nodes@[x as int].fanins@[fk] == y;
            assert(sched.contains(y));
            assert(!m[y as int]);
            assert(x < n);
            if m[x as int] {
                assert(sweep_inv(c, s));
                assert(s.marked[x as int]);
                assert(fanins_marked(c, s.marked, x));
                assert(m[c.nodes@[x as int].fanins@[fk] as int]);
            }
            if sched.contains(x) {
                assert(fanins_marked(c, m, x));
                assert(m[c.nodes@[x as int].fanins@[fk] as int]);
            }
        }
    }
    // Marked nodes keep their fanins marked.
    assert forall|v: usize| v < n && #[trigger] m2[v as int] implies fanins_marked(c, m2, v) by {
        assert(m2[v as int] == (m[v as int] || sched.contains(v)));
        if m[v as int] {
            assert(fanins_marked(c, m, v));
        } else {
            assert(sched.contains(v));
            assert(fanins_marked(c, m, v));
        }
        assert forall|k: int| 0 <= k < c.nodes@[v as int].fanins@.len() implies m2[c.nodes@[v as int].fanins@[k] as int] by {
            assert(m[c.nodes@[v as int].fanins@[k] as int]);
            assert(c.nodes@[v as int].fanins@[k] < n);
        }
    }
    // At least one node gets newly marked.
    let x0 = sched[0];
    assert(sched.contains(x0));
    assert(!m[x0 as int] && m2[x0 as int]);
    lemma_count_unmarked_decreases(m, m2);
}


proof fn lemma_mark_flags(b: bool)
    ensures
        mark_flags(b)[0] & MARKED != 0 <==> b,
        mark_flags(b).len() == 36,
{
    lemma_flag_bits();
}

/// Whether every fanin of node `v` carries the mark in `data`, whose marks
/// are `marks`.
fn all_fanins_marked(c: &LevelCircuit, data: &Vec<NodeData>, v: usize, Ghost(marks): Ghost<Seq<bool>>) -> (r: bool)
    requires
        v < c.nodes@.len(),
        refs_in_range(*c),
        data@.len() == c.nodes@.len(),
        marks.len() == c.nodes@.len(),
        forall|u: int| 0 <= u < c.nodes@.len() ==> (#[trigger] data@[u]).marked() == marks[u],
    ensures
        r == fanins_marked(*c, marks, v),
{
    let cnt = c.nodes[v].fanins.len();
    for k in 0..cnt
        invariant
            v < c.nodes@.len(),
            refs_in_range(*c),
            data@.len() == c.nodes@.len(),
            marks.len() == c.nodes@.len(),
            forall|u: int| 0 <= u < c.nodes@.len() ==> (#[trigger] data@[u]).marked() == marks[u],
            cnt == c.nodes@[v as int].fanins@.len(),
            forall|j: int| 0 <= j < k ==> marks[#[trigger] c.nodes@[v as int].fanins@[j] as int],
    {
        let f = c.nodes[v].fanins[k];
        assert(f < c.nodes@.len());
        if !data[f].is_marked() {
            assert(!marks[c.nodes@[v as int].fanins@[k as int] as int]);
            return false;
        }
    }
    true
}

/// One round of the sweep on the working state; `true` when it stalls.
fn sweep_round(c: &LevelCircuit, st: &mut SweepState, Ghost(sw): Ghost<Sweep>) -> (stalled: bool)
    requires
        refs_in_range(*c),
        state_matches(*c, *old(st), sw),
        sweep_inv(*c, sw),
        sw.round < usize::MAX,
    ensures
        stalled == (sweep_step(*c, sw) is None),
        stalled ==> final(st).level == old(st).level,
        !stalled ==> state_matches(*c, *final(st), sweep_step(*c, sw).unwrap()),
{
    let n = c.nodes.len();
    let m = st.queue.len();
    let ghost q = sw.queue;
    let ghost d0 = st.data@;
    let mut sched: Vec<usize> = Vec::new();
    let mut deferred: Vec<usize> = Vec::new();
    assert(q.take(0) =~= Seq::<usize>::empty());
    assert(q.subrange(0, m as int) =~= q);
    assert forall|u: int| 0 <= u < n implies (#[trigger] d0[u]).marked() == sw.marked[u] by {
        lemma_mark_flags(sw.marked[u]);
    }
    for i in 0..m
        invariant
            q == sw.queue,
            n == c.nodes@.len(),
            refs_in_range(*c),
            state_matches(*c, *old(st), sw),
            sweep_inv(*c, sw),
            st.queue@ == q,
            m == q.len(),
            st.data@ == d0,
            forall|u: int| 0 <= u < n ==> (#[trigger] d0[u]).marked() == sw.marked[u],
            d0 == old(st).data@,
            st.varying == old(st).varying,
            st.level == old(st).level,
            st.queued@.len() == n,
            forall|v: int| 0 <= v < n ==> #[trigger] st.queued@[v] == q.subrange(i as int, m as int).contains(v as usize),
            sched@ == select_ready(*c, sw.marked, q.take(i as int), true),
            deferred@ == select_ready(*c, sw.marked, q.take(i as int), false),
    {
        let cur = st.queue[i];
        assert(q[i as int] < n);
        st.queued.set(cur, false);
        proof {
            assert forall|v: int| 0 <= v < n implies #[trigger] st.queued@[v] == q.subrange(i + 1, m as int).contains(v as usize) by {
                let a = q.subrange(i as int, m as int);
                let b = q.subrange(i + 1, m as int);
                if b.contains(v as usize) {
                    let j = choose|j: int| 0 <= j < b.len() && b[j] == v as usize;
                    assert(a[j + 1] == v as usize);
                    assert(q[i + 1 + j] == v as usize);
                    if v as usize == cur {
                        assert(q[i as int] == q[i + 1 + j]);
                    }
                }
                if v as usize != cur && a.contains(v as usize) {
                    let j = choose|j: int| 0 <= j < a.len() && a[j] == v as usize;
                    assert(j != 0);
                    assert(b[j - 1] == v as usize);
                }
            }
        }
        let ready = all_fanins_marked(c, &st.data, cur, Ghost(sw.marked));
        proof {
            assert(q.take(i + 1).drop_last() =~= q.take(i as int));
            assert(q.take(i + 1).last() == cur);
        }
        if ready {
            sched.push(cur);
        } else {
            deferred.push(cur);
        }
    }
    assert(q.take(m as int) =~= q);
    if sched.len() == 0 {
        return true;
    }
    assert(forall|v: int| 0 <= v < n ==> !(#[trigger] st.queued@[v])) by {
        assert forall|v: int| 0 <= v < n implies !(#[trigger] st.queued@[v]) by {
            assert(q.subrange(m as int, m as int) =~= Seq::<usize>::empty());
        }
    }
    proof {
        lemma_select_ready_contains(*c, sw.marked, q, true);
        lemma_select_ready_contains(*c, sw.marked, q, false);
    }
    let level = st.level + 1;
    st.level = level;
    let mut new_queue: Vec<usize> = Vec::new();
    let ghost sc = sched@;
    assert(sc.take(0) =~= Seq::<usize>::empty());
    assert forall|i: int| 0 <= i < sc.len() implies #[trigger] sc[i] < n by {
        let x = sc[i];
        assert(sc.contains(x));
        assert(q.contains(x));
        let j = choose|j: int| 0 <= j < q.len() && q[j] == x;
        assert(q[j] < n);
    }
    for t in 0..sched.len()
        invariant
            n == c.nodes@.len(),
            refs_in_range(*c),
            state_matches(*c, *old(st), sw),
            sweep_inv(*c, sw),
            sc == sched@,
            sc == select_ready(*c, sw.marked, q, true),
            forall|i: int| 0 <= i < sc.len() ==> #[trigger] sc[i] < n,
            level == sw.round + 1,
            st.level == level,
            st.data@.len() == n,
            st.queued@.len() == n,
            new_queue@ == push_fanouts(*c, Seq::empty(), sc.take(t as int)),
            forall|i: int| 0 <= i < new_queue@.len() ==> new_queue@[i] < n,
            forall|v: int| 0 <= v < n ==> #[trigger] st.queued@[v] == new_queue@.contains(v as usize),
            st.varying@ == sw.varying + select_internal(*c, sc.take(t as int)),
            forall|v: int| 0 <= v < n ==> {
                &&& (#[trigger] st.data@[v]).cube == initial_cube(c.nodes@[v])
                &&& st.data@[v].value@ == initial_values(*c, v)
                &&& st.data@[v].level == if sc.take(t as int).contains(v as usize) { level as nat } else { sw.levels[v] }
                &&& st.data@[v].jflag@ == mark_flags(sw.marked[v] || sc.take(t as int).contains(v as usize))
            },
    {
        let v = sched[t];
        assert(sc[t as int] < n);
        proof {
            assert(sc.take(t + 1).drop_last() =~= sc.take(t as int));
            assert(sc.take(t + 1).last() == v);
            lemma_flag_bits();
        }
        if c.nodes[v].kind == NodeKind::Internal {
            st.varying.push(v);
        }
        st.data[v].level = level;
        st.data[v].mark();
        let ghost nq = new_queue@;
        append_unqueued(&c.nodes[v].fanouts, &mut new_queue, &mut st.queued, n);
        proof {
            assert forall|k: int| 0 <= k < c.nodes@[v as int].fanouts@.len() implies c.nodes@[v as int].fanouts@[k] < n by {}
            assert(st.varying@ =~= sw.varying + select_internal(*c, sc.take(t + 1)));
            assert forall|u: int| 0 <= u < n implies {
                &&& (#[trigger] st.data@[u]).level == if sc.take(t + 1).contains(u as usize) { level as nat } else { sw.levels[u] }
                &&& st.data@[u].jflag@ == mark_flags(sw.marked[u] || sc.take(t + 1).contains(u as usize))
            } by {
                let a = sc.take(t as int);
                let b = sc.take(t + 1);
                assert(b =~= a.push(v));
                if b.contains(u as usize) && u as usize != v {
                    let j = choose|j: int| 0 <= j < b.len() && b[j] == u as usize;
                    assert(a[j] == u as usize);
                }
                if a.contains(u as usize) {
                    let j = choose|j: int| 0 <= j < a.len() && a[j] == u as usize;
                    assert(b[j] == u as usize);
                }
                assert(b[t as int] == v);
                if u as usize == v {
                    assert(st.data@[u].jflag@ =~= mark_flags(true));
                }
            }
        }
    }
    assert(sc.take(sc.len() as int) =~= sc);
    let ghost pf = new_queue@;
    let ghost df = deferred@;
    let ghost dd = st.data@;
    let ghost vv = st.varying@;
    assert(df.take(0) =~= Seq::<usize>::empty());
    assert forall|i: int| 0 <= i < df.len() implies #[trigger] df[i] < n by {
        let x = df[i];
        assert(df.contains(x));
        assert(q.contains(x));
        let j = choose|j: int| 0 <= j < q.len() && q[j] == x;
        assert(q[j] < n);
    }
    for t in 0..deferred.len()
        invariant
            n == c.nodes@.len(),
            df == deferred@,
            df == select_ready(*c, sw.marked, q, false),
            st.data@ == dd,
            st.varying@ == vv,
            st.level == level,
            forall|i: int| 0 <= i < df.len() ==> #[trigger] df[i] < n,
            st.queued@.len() == n,
            new_queue@ == append_unique(pf, df.take(t as int)),
            forall|i: int| 0 <= i < new_queue@.len() ==> new_queue@[i] < n,
            forall|v: int| 0 <= v < n ==> #[trigger] st.queued@[v] == new_queue@.contains(v as usize),
    {
        let v = deferred[t];
        assert(df[t as int] < n);
        assert(df.take(t + 1).drop_last() =~= df.take(t as int));
        assert(df.take(t + 1).last() == v);
        if !st.queued[v] {
            let ghost before = new_queue@;
            st.queued.set(v, true);
            new_queue.push(v);
            proof {
                assert forall|u: int| 0 <= u < n implies #[trigger] st.queued@[u] == new_queue@.contains(u as usize) by {
                    if u as usize == v {
                        assert(new_queue@[before.len() as int] == v);
                    } else {
                        if new_queue@.contains(u as usize) {
                            let i = choose|i: int| 0 <= i < new_queue@.len() && new_queue@[i] == u as usize;
                            assert(before[i] == u as usize);
                        }
                        if before.contains(u as usize) {
                            let i = choose|i: int| 0 <= i < before.len() && before[i] == u as usize;
                            assert(new_queue@[i] == u as usize);
                        }
                    }
                }
            }
        }
    }
    assert(df.take(df.len() as int) =~= df);
    st.queue = new_queue;
    let ghost sw2 = sweep_step(*c, sw).unwrap();
    proof {
        assert(sw2.levels =~= Seq::new(sw.levels.len(), |v: int| if sc.contains(v as usize) { sw.round + 1 } else { sw.levels[v] }));
        assert(sw2.marked =~= Seq::new(sw.marked.len(), |v: int| sw.marked[v] || sc.contains(v as usize)));
        assert forall|v: int| 0 <= v < n implies {
            &&& (#[trigger] st.data@[v]).level == sw2.levels[v]
            &&& st.data@[v].jflag@ == mark_flags(sw2.marked[v])
        } by {}
    }
    false
}


/// The levelization `lz` is the outcome of the finished sweep `fin`.
pub open spec fn levelized_as(c: LevelCircuit, fin: Sweep, lz: Levelization) -> bool {
    let lat = input_latches(c, c.primary_inputs@);
    &&& is_levelized_data(c, fin.levels, lz.data@)
    &&& lz.present_state@ == Seq::new(lat.len(), |i: int| lat[i].0)
    &&& lz.initial_state@ == Seq::new(lat.len(), |i: int| lat[i].1.initial_value)
    &&& lz.next_state@ == Seq::new(lat.len(), |i: int| lat[i].1.next_state_node)
    &&& lz.real_primary_outputs@ == real_output_drivers(c, c.primary_outputs@)
    &&& lz.varying_nodes@ == fin.varying
}

/// The sweep starts from a state satisfying its invariant.
proof fn lemma_initial_sweep(c: LevelCircuit)
    requires
        refs_in_range(c),
        levelizable_shape(c),
    ensures
        sweep_inv(c, initial_sweep(c)),
{
    let n = c.nodes@.len();
    let pi = c.primary_inputs@;
    let s = initial_sweep(c);
    lemma_push_fanouts_shape(c, Seq::empty(), pi);
    lemma_push_fanouts_contains(c, Seq::empty(), pi);
    assert forall|i: int| 0 <= i < s.queue.len() implies #[trigger] s.queue[i] < n && !s.marked[s.queue[i] as int] by {
        let x = s.queue[i];
        assert(s.queue.contains(x));
        assert(!Seq::<usize>::empty().contains(x));
        let j = choose|j: int| 0 <= j < pi.len() && #[trigger] fans_out_to(c, pi[j], x);
        let y = pi[j];
        let k = choose|k: int| 0 <= k < c.nodes@[y as int].fanouts@.len() && c.nodes@[y as int].fanouts@[k] == x;
        assert(c.nodes@[y as int].fanouts@[k] < n);
        assert(c.nodes@[x as int].fanins@.contains(y));
        if pi.contains(x) {
            let t = choose|t: int| 0 <= t < pi.len() && pi[t] == x;
            assert(c.nodes@[pi[t] as int].fanins@.len() == 0);
        }
    }
    assert forall|v: usize| v < n && #[trigger] s.marked[v as int] implies fanins_marked(c, s.marked, v) by {
        if pi.contains(v) {
            let t = choose|t: int| 0 <= t < pi.len() && pi[t] == v;
            assert(c.nodes@[pi[t] as int].fanins@.len() == 0);
        }
    }
}

fn contains_node(v: &Vec<usize>, x: usize) -> (r: bool)
    ensures
        r == v@.contains(x),
{
    for k in 0..v.len()
        invariant
            forall|j: int| 0 <= j < k ==> v@[j] != x,
    {
        if v[k] == x {
            return true;
        }
    }
    false
}

/// Levelizes the circuit: marks the primary inputs (recording the latches
/// behind them) and the constants driving primary outputs, then sweeps in
/// rounds, giving each queued node whose fanins are all marked the round's
/// level. Fails on a dangling reference, on a latch whose end node lacks its
/// next-state fanin, or when a round finds no node ready.
pub fn levelize_circuit(circuit: &LevelCircuit) -> (r: Result<Levelization, LevelError>)
    requires
        levelizable_shape(*circuit),
    ensures
        match node_refs_error(*circuit) {
            Some(e) => r == Err::<Levelization, LevelError>(e),
            None => match first_bad_latch(*circuit, circuit.primary_inputs@) {
                Some(e) => r == Err::<Levelization, LevelError>(e),
                None => match sweep_run(*circuit, initial_sweep(*circuit), (circuit.nodes@.len() + 1) as nat) {
                    Err(l) => r == Err::<Levelization, LevelError>(LevelError::UnlevelizableCircuit { stalled_level: l as usize }),
                    Ok(fin) => r matches Ok(lz) && levelized_as(*circuit, fin, lz),
                },
            },
        },
{
    validate_node_refs(circuit)?;
    proof {
        lemma_refs_in_range(*circuit);
    }
    let ghost c = *circuit;
    let n = circuit.nodes.len();
    let mut data: Vec<NodeData> = Vec::new();
    for i in 0..n
        invariant
            c == *circuit,
            n == c.nodes@.len(),
            data@.len() == i,
            forall|v: int| 0 <= v < i ==> {
                &&& (#[trigger] data@[v]).cube == initial_cube(c.nodes@[v])
                &&& data@[v].value@ == zeros36()
                &&& data@[v].jflag@ == zeros36()
                &&& data@[v].level == 0
            },
    {
        let cube = initial_cube_for_node(&circuit.nodes[i]);
        data.push(NodeData::new(cube));
    }
    let mut queued: Vec<bool> = Vec::new();
    for i in 0..n
        invariant
            queued@ == Seq::new(i as nat, |v: int| false),
    {
        queued.push(false);
        assert(queued@ =~= Seq::new((i + 1) as nat, |v: int| false));
    }
    let mut queue: Vec<usize> = Vec::new();
    let mut present_state: Vec<usize> = Vec::new();
    let mut initial_state: Vec<i32> = Vec::new();
    let mut next_state: Vec<usize> = Vec::new();
    let mut varying: Vec<usize> = Vec::new();
    let ghost pi = circuit.primary_inputs@;
    let np = circuit.primary_inputs.len();
    assert(pi.skip(0) =~= pi);
    assert(pi.take(0) =~= Seq::<usize>::empty());
    for t in 0..np
        invariant
            c == *circuit,
            n == c.nodes@.len(),
            refs_in_range(c),
            pi == c.primary_inputs@,
            np == pi.len(),
            first_bad_latch(c, pi.skip(t as int)) == first_bad_latch(c, pi),
            node_refs_error(c) is None,
            present_state@ == Seq::new(input_latches(c, pi.take(t as int)).len(), |i: int| input_latches(c, pi.take(t as int))[i].0),
            initial_state@ == Seq::new(input_latches(c, pi.take(t as int)).len(), |i: int| input_latches(c, pi.take(t as int))[i].1.initial_value),
            next_state@ == Seq::new(input_latches(c, pi.take(t as int)).len(), |i: int| input_latches(c, pi.take(t as int))[i].1.next_state_node),
            varying@ == plain_inputs(c, pi.take(t as int)),
            queue@ == push_fanouts(c, Seq::empty(), pi.take(t as int)),
            queued@.len() == n,
            forall|i: int| 0 <= i < queue@.len() ==> queue@[i] < n,
            forall|v: int| 0 <= v < n ==> #[trigger] queued@[v] == queue@.contains(v as usize),
            data@.len() == n,
            forall|v: int| 0 <= v < n ==> {
                &&& (#[trigger] data@[v]).cube == initial_cube(c.nodes@[v])
                &&& data@[v].value@ == zeros36()
                &&& data@[v].jflag@ == mark_flags(pi.take(t as int).contains(v as usize))
                &&& data@[v].level == 0
            },
    {
        let p = circuit.primary_inputs[t];
        assert(pi[t as int] < n);
        proof {
            assert(pi.skip(t as int)[0] == p);
            assert(pi.skip(t as int).drop_first() =~= pi.skip(t + 1));
            assert(pi.take(t + 1).drop_last() =~= pi.take(t as int));
            assert(pi.take(t + 1).last() == p);
            lemma_flag_bits();
        }
        match circuit.nodes[p].latch_end {
            Some(le) => {
                let ok = le.endpoint_node < n && contains_node(&circuit.nodes[le.endpoint_node].fanins, le.next_state_node);
                if !ok {
                    return Err(LevelError::NonInputLatchEndpoint { node: p, latch_end: le.endpoint_node });
                }
                present_state.push(p);
                initial_state.push(le.initial_value);
                next_state.push(le.next_state_node);
            },
            None => {
                varying.push(p);
            },
        }
        data[p].level = 0;
        data[p].mark();
        append_unqueued(&circuit.nodes[p].fanouts, &mut queue, &mut queued, n);
        proof {
            assert forall|k: int| 0 <= k < c.nodes@[p as int].fanouts@.len() implies c.nodes@[p as int].fanouts@[k] < n by {}
            let lat = input_latches(c, pi.take(t + 1));
            assert(present_state@ =~= Seq::new(lat.len(), |i: int| lat[i].0));
            assert(initial_state@ =~= Seq::new(lat.len(), |i: int| lat[i].1.initial_value));
            assert(next_state@ =~= Seq::new(lat.len(), |i: int| lat[i].1.next_state_node));
            assert forall|v: int| 0 <= v < n implies (#[trigger] data@[v]).jflag@ == mark_flags(pi.take(t + 1).contains(v as usize)) by {
                let a = pi.take(t as int);
                let b = pi.take(t + 1);
                assert(b =~= a.push(p));
                if b.contains(v as usize) && v as usize != p {
                    let j = choose|j: int| 0 <= j < b.len() && b[j] == v as usize;
                    assert(a[j] == v as usize);
                }
                if a.contains(v as usize) {
                    let j = choose|j: int| 0 <= j < a.len() && a[j] == v as usize;
                    assert(b[j] == v as usize);
                }
                assert(b[t as int] == p);
                if v as usize == p {
                    assert(data@[v].jflag@ =~= mark_flags(true));
                }
            }
        }
    }
    assert(pi.take(np as int) =~= pi);
    let ghost po = circuit.primary_outputs@;
    let no = circuit.primary_outputs.len();
    let mut drivers: Vec<usize> = Vec::new();
    assert(po.take(0) =~= Seq::<usize>::empty());
    for t in 0..no
        invariant
            c == *circuit,
            n == c.nodes@.len(),
            refs_in_range(c),
            po == c.primary_outputs@,
            no == po.len(),
            drivers@ == real_output_drivers(c, po.take(t as int)),
            data@.len() == n,
            forall|v: int| 0 <= v < n ==> {
                &&& (#[trigger] data@[v]).cube == initial_cube(c.nodes@[v])
                &&& data@[v].value@ == if drives_constant_among(c, po.take(t as int), v) {
                    constant_values(c.nodes@[v].function == NodeFunction::One)
                } else {
                    zeros36()
                }
                &&& data@[v].jflag@ == mark_flags(pi.contains(v as usize) || drives_constant_among(c, po.take(t as int), v))
                &&& data@[v].level == 0
            },
    {
        let p = circuit.primary_outputs[t];
        assert(po[t as int] < n);
        let ghost a = po.take(t as int);
        let ghost b = po.take(t + 1);
        proof {
            assert(b.drop_last() =~= a);
            assert(b.last() == p);
            lemma_flag_bits();
        }
        if circuit.nodes[p].fanins.len() > 0 {
            let f = circuit.nodes[p].fanins[0];
            assert(f < n);
            if circuit.nodes[f].kind == NodeKind::Internal && circuit.nodes[f].fanins.len() == 0 {
                data[f].level = 0;
                data[f].mark();
                data[f].set_constant_value(circuit.nodes[f].function == NodeFunction::One);
            }
            if circuit.nodes[p].latch_end.is_none() {
                drivers.push(f);
            }
        }
        proof {
            assert forall|v: int| 0 <= v < n implies drives_constant_among(c, b, v) == (drives_constant_among(c, a, v)
                || (c.nodes@[v].kind == NodeKind::Internal && c.nodes@[v].fanins@.len() == 0 && first_fanin_is(c, p, v))) by {
                if exists|j: int| 0 <= j < b.len() && #[trigger] first_fanin_is(c, b[j], v) {
                    let j = choose|j: int| 0 <= j < b.len() && #[trigger] first_fanin_is(c, b[j], v);
                    if j < a.len() {
                        assert(a[j] == b[j]);
                        assert(first_fanin_is(c, a[j], v));
                    }
                }
                if exists|j: int| 0 <= j < a.len() && #[trigger] first_fanin_is(c, a[j], v) {
                    let j = choose|j: int| 0 <= j < a.len() && #[trigger] first_fanin_is(c, a[j], v);
                    assert(a[j] == b[j]);
                    assert(first_fanin_is(c, b[j], v));
                }
                assert(b[t as int] == p);
                if first_fanin_is(c, p, v) {
                    assert(first_fanin_is(c, b[t as int], v));
                }
            }
            assert forall|v: int| 0 <= v < n implies (#[trigger] data@[v]).jflag@ == mark_flags(pi.contains(v as usize) || drives_constant_among(c, b, v)) by {
                if drives_constant_among(c, b, v) && !drives_constant_among(c, a, v) {
                    assert(data@[v].jflag@ =~= mark_flags(true));
                }
            }
        }
    }
    assert(po.take(no as int) =~= po);
    let mut st = SweepState { data, queue, queued, varying, level: 0 };
    let ghost sw0 = initial_sweep(c);
    proof {
        lemma_initial_sweep(c);
        assert(sw0.marked =~= Seq::new(n as nat, |v: int| pi.contains(v as usize) || is_constant_output_driver(c, v)));
        assert forall|v: int| 0 <= v < n implies (#[trigger] st.data@[v]).value@ == initial_values(c, v) by {}
        lemma_count_unmarked_bounds(sw0.marked);
    }
    let ghost mut sw = sw0;
    let ghost mut fuel: nat = (n + 1) as nat;
    while st.queue.len() > 0
        invariant
            c == *circuit,
            n == c.nodes@.len(),
            refs_in_range(c),
            levelizable_shape(c),
            node_refs_error(c) is None,
            first_bad_latch(c, c.primary_inputs@) is None,
            state_matches(c, st, sw),
            sweep_inv(c, sw),
            sweep_run(c, sw, fuel) == sweep_run(c, sw0, (n + 1) as nat),
            sw0 == initial_sweep(c),
            sw.round + count_unmarked(sw.marked) <= n,
            fuel == n + 1 - sw.round,
        decreases count_unmarked(sw.marked),
    {
        proof {
            let x = sw.queue[0];
            assert(!sw.marked[x as int]);
            lemma_count_unmarked_bounds(sw.marked);
        }
        let stalled = sweep_round(circuit, &mut st, Ghost(sw));
        if stalled {
            return Err(LevelError::UnlevelizableCircuit { stalled_level: st.level + 1 });
        }
        proof {
            lemma_sweep_step(c, sw);
            sw = sweep_step(c, sw).unwrap();
            fuel = (fuel - 1) as nat;
        }
    }
    assert(sw.queue.len() == 0);
    assert(sweep_run(c, sw, fuel) == Ok::<Sweep, nat>(sw));
    assert(st.varying@ == sw.varying);
    let ghost d1 = st.data@;
    let ghost vy = st.varying@;
    assert forall|u: int| 0 <= u < n implies (#[trigger] d1[u]).jflag@.update(0, 0u8) == zeros36() by {
        assert(mark_flags(sw.marked[u]).update(0, 0u8) =~= zeros36());
    }
    for v in 0..n
        invariant
            n == c.nodes@.len(),
            st.data@.len() == n,
            forall|u: int| 0 <= u < n ==> (#[trigger] d1[u]).jflag@.update(0, 0u8) == zeros36(),
            forall|u: int| 0 <= u < n ==> {
                &&& (#[trigger] st.data@[u]).cube == d1[u].cube
                &&& st.data@[u].value == d1[u].value
                &&& st.data@[u].level == d1[u].level
                &&& st.data@[u].jflag@ == if u < v { zeros36() } else { d1[u].jflag@ }
            },
            forall|u: int| 0 <= u < n ==> (#[trigger] d1[u]).jflag@.len() == 36,
            st.varying@ == vy,
            vy == sw.varying,
    {
        st.data[v].unmark();
        assert(st.data@[v as int].jflag@ =~= zeros36());
    }
    assert(st.varying@ == sw.varying);
    assert(sweep_run(c, initial_sweep(c), (n + 1) as nat) == Ok::<Sweep, nat>(sw));
    Ok(Levelization {
        data: st.data,
        present_state,
        initial_state,
        next_state,
        real_primary_outputs: drivers,
        varying_nodes: st.varying,
    })
}


/// Levels of the sweep so far: a marked node's fanins have lower levels,
/// levels do not exceed the round, unmarked nodes are at level 0, and the
/// primary inputs are marked at level 0.
pub open spec fn levels_ordered(c: LevelCircuit, s: Sweep) -> bool {
    let n = c.nodes@.len();
    &&& forall|v: int| 0 <= v < n && #[trigger] s.marked[v] ==> s.levels[v] <= s.round
    &&& forall|v: int| 0 <= v < n && !#[trigger] s.marked[v] ==> s.levels[v] == 0
    &&& forall|v: int, k: int| 0 <= v < n && s.marked[v] && 0 <= k < c.nodes@[v].fanins@.len()
        ==> #[trigger] s.levels[c.nodes@[v].fanins@[k] as int] < s.levels[v]
    &&& forall|t: int| 0 <= t < c.primary_inputs@.len() ==> s.marked[#[trigger] c.primary_inputs@[t] as int]
        && s.levels[c.primary_inputs@[t] as int] == 0
}

proof fn lemma_levels_initial(c: LevelCircuit)
    requires
        refs_in_range(c),
        levelizable_shape(c),
        c.nodes@.len() <= usize::MAX,
    ensures
        levels_ordered(c, initial_sweep(c)),
{
    let s = initial_sweep(c);
    let n = c.nodes@.len();
    assert forall|v: int, k: int| 0 <= v < n && s.marked[v] && 0 <= k < c.nodes@[v].fanins@.len()
        implies #[trigger] s.levels[c.nodes@[v].fanins@[k] as int] < s.levels[v] by {
        let u = v as usize;
        assert(u as int == v);
        if c.primary_inputs@.contains(u) {
            let t = choose|t: int| 0 <= t < c.primary_inputs@.len() && c.primary_inputs@[t] == u;
            assert(c.primary_inputs@[t] < n);
            assert(c.nodes@[c.primary_inputs@[t] as int].fanins@.len() == 0);
        } else {
            assert(is_constant_output_driver(c, v));
            let j = choose|j: int| 0 <= j < c.primary_outputs@.len() && #[trigger] first_fanin_is(c, c.primary_outputs@[j], v);
            assert(c.nodes@[v].fanins@.len() == 0);
        }
    }
    assert forall|t: int| 0 <= t < c.primary_inputs@.len() implies s.marked[#[trigger] c.primary_inputs@[t] as int]
        && s.levels[c.primary_inputs@[t] as int] == 0 by {
        assert(c.primary_inputs@[t] < n);
        assert(c.primary_inputs@.contains(c.primary_inputs@[t]));
    }
}

proof fn lemma_levels_step(c: LevelCircuit, s: Sweep)
    requires
        refs_in_range(c),
        levelizable_shape(c),
        c.nodes@.len() <= usize::MAX,
        sweep_inv(c, s),
        levels_ordered(c, s),
        sweep_step(c, s) is Some,
    ensures
        levels_ordered(c, sweep_step(c, s).unwrap()),
{
    let n = c.nodes@.len();
    let s2 = sweep_step(c, s).unwrap();
    let sched = select_ready(c, s.marked, s.queue, true);
    lemma_select_ready_contains(c, s.marked, s.queue, true);
    assert forall|x: usize| #[trigger] sched.contains(x) implies (x as int) < n && !s.marked[x as int] && fanins_marked(c, s.marked, x) by {
        let i = choose|i: int| 0 <= i < s.queue.len() && s.queue[i] == x;
        assert(s.queue[i] < n && !s.marked[s.queue[i] as int]);
    }
    assert forall|v: int, k: int| 0 <= v < n && s2.marked[v] && 0 <= k < c.nodes@[v].fanins@.len()
        implies #[trigger] s2.levels[c.nodes@[v].fanins@[k] as int] < s2.levels[v] by {
        let f = c.nodes@[v].fanins@[k];
        assert(f < n);
        let u = v as usize;
        assert(u as int == v);
        if sched.contains(u) {
            assert(fanins_marked(c, s.marked, u));
        } else {
            assert(s.marked[u as int]);
            assert(fanins_marked(c, s.marked, u));
        }
        assert(s.marked[c.nodes@[u as int].fanins@[k] as int]);
        assert(s.marked[f as int]);
        assert(!sched.contains(f));
    }
    assert forall|t: int| 0 <= t < c.primary_inputs@.len() implies s2.marked[#[trigger] c.primary_inputs@[t] as int]
        && s2.levels[c.primary_inputs@[t] as int] == 0 by {
        let p = c.primary_inputs@[t];
        assert(s.marked[p as int]);
        assert(!sched.contains(p));
    }
    assert forall|v: int| 0 <= v < n && !#[trigger] s2.marked[v] implies s2.levels[v] == 0 by {
        assert(!sched.contains(v as usize));
    }
    assert forall|v: int| 0 <= v < n && #[trigger] s2.marked[v] implies s2.levels[v] <= s2.round by {
        if !sched.contains(v as usize) {
            assert(s.marked[v]);
        }
    }
}

proof fn lemma_levels_run(c: LevelCircuit, s: Sweep, fuel: nat)
    requires
        refs_in_range(c),
        levelizable_shape(c),
        c.nodes@.len() <= usize::MAX,
        sweep_inv(c, s),
        levels_ordered(c, s),
    ensures
        sweep_run(c, s, fuel) matches Ok(fin) ==> levels_ordered(c, fin),
    decreases fuel,
{
    if s.queue.len() != 0 && fuel != 0 {
        if sweep_step(c, s) is Some {
            lemma_sweep_step(c, s);
            lemma_levels_step(c, s);
            lemma_levels_run(c, sweep_step(c, s).unwrap(), (fuel - 1) as nat);
        }
    }
}

/// In a levelized circuit every fanin of a node placed on a level (1 or
/// more) is on a lower level, and the primary inputs are on level 0.
pub proof fn lemma_levelized_fanins_lower(c: LevelCircuit, fin: Sweep, lz: Levelization)
    requires
        refs_in_range(c),
        levelizable_shape(c),
        c.nodes@.len() <= usize::MAX,
        sweep_run(c, initial_sweep(c), (c.nodes@.len() + 1) as nat) == Ok::<Sweep, nat>(fin),
        levelized_as(c, fin, lz),
    ensures
        forall|v: int, k: int| 0 <= v < lz.data@.len() && lz.data@[v].level >= 1 && 0 <= k < c.nodes@[v].fanins@.len()
            ==> #[trigger] lz.data@[c.nodes@[v].fanins@[k] as int].level < lz.data@[v].level,
        forall|t: int| 0 <= t < c.primary_inputs@.len() ==> lz.data@[#[trigger] c.primary_inputs@[t] as int].level == 0,
{
    lemma_initial_sweep(c);
    lemma_levels_initial(c);
    lemma_levels_run(c, initial_sweep(c), (c.nodes@.len() + 1) as nat);
    let n = c.nodes@.len();
    assert forall|v: int, k: int| 0 <= v < lz.data@.len() && lz.data@[v].level >= 1 && 0 <= k < c.nodes@[v].fanins@.len()
        implies #[trigger] lz.data@[c.nodes@[v].fanins@[k] as int].level < lz.data@[v].level by {
        let f = c.nodes@[v].fanins@[k];
        assert(f < n);
        assert(lz.data@[v].level == fin.levels[v]);
        assert(lz.data@[f as int].level == fin.levels[f as int]);
        assert(fin.marked[v]);
        assert(fin.levels[c.nodes@[v].fanins@[k] as int] < fin.levels[v]);
    }
    assert forall|t: int| 0 <= t < c.primary_inputs@.len() implies lz.data@[#[trigger] c.primary_inputs@[t] as int].level == 0 by {
        assert(c.primary_inputs@[t] < n);
        assert(lz.data@[c.primary_inputs@[t] as int].level == fin.levels[c.primary_inputs@[t] as int]);
    }
}

} // verus!
