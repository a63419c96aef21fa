//! Symbolic power simulation.
//!
//! From a gate network with a delay per gate, build a symbolic network that
//! holds, for every point in time at which a gate may switch, a snapshot of
//! that gate before and after the switch, and one XOR primary output that
//! detects the transition. Primary inputs switch once, at time 0.

use vstd::prelude::*;
use crate::text::{push_str, push_decimal, push_signed_decimal, decimal, signed_decimal, debug_quoted, debug_text};

verus! {

/// Index of a node of a [`PowerNetwork`].
#[derive(Clone, Copy, Debug, PartialEq, Eq, Hash, Structural)]
pub struct NodeId(pub usize);

/// Index of a node of a [`SymbolicPowerNetwork`].
#[derive(Clone, Copy, Debug, PartialEq, Eq, Hash, Structural)]
pub struct SymbolicNodeId(pub usize);

#[derive(Clone, Copy, Debug, PartialEq, Eq, Structural)]
pub enum PowerNodeKind {
    PrimaryInput,
    PrimaryOutput,
    Internal,
}

#[derive(Clone, Debug, PartialEq, Eq)]
pub struct PowerNode {
    pub name: String,
    pub kind: PowerNodeKind,
    pub fanins: Vec<NodeId>,
}

impl PowerNode {
    pub fn new(name: &str, kind: PowerNodeKind) -> (r: Self)
        ensures
            r.name@ == name@,
            r.kind == kind,
            r.fanins@ == Seq::<NodeId>::empty(),
    {
        PowerNode { name: name.to_owned(), kind, fanins: Vec::new() }
    }

    pub fn with_fanins(self, fanins: Vec<NodeId>) -> (r: Self)
        ensures
            r.name == self.name,
            r.kind == self.kind,
            r.fanins@ == fanins@,
    {
        PowerNode { name: self.name, kind: self.kind, fanins }
    }
}

/// The delay data of a gate.
#[derive(Clone, Copy, Debug, PartialEq, Eq, Structural)]
pub struct NodeInfo {
    pub delay: i32,
}

/// The delay entry of `id` in a list of entries: the last one given for it.
pub open spec fn info_lookup(entries: Seq<(NodeId, NodeInfo)>, id: NodeId) -> Option<NodeInfo>
    decreases entries.len(),
{
    if entries.len() == 0 {
        None
    } else if entries.last().0 == id {
        Some(entries.last().1)
    } else {
        info_lookup(entries.drop_last(), id)
    }
}

/// Delay data per node: a later entry for a node replaces an earlier one.
#[derive(Clone, Debug, PartialEq, Eq)]
pub struct NodeInfoTable {
    entries: Vec<(NodeId, NodeInfo)>,
}

impl NodeInfoTable {
    /// The entries, in the order given.
    pub closed spec fn entries_view(&self) -> Seq<(NodeId, NodeInfo)> {
        self.entries@
    }

    /// The delay data of `id`, if any.
    pub open spec fn lookup(&self, id: NodeId) -> Option<NodeInfo> {
        info_lookup(self.entries_view(), id)
    }

    pub fn new() -> (r: Self)
        ensures
            forall|id: NodeId| r.lookup(id) is None,
    {
        let r = NodeInfoTable { entries: Vec::new() };
        assert forall|id: NodeId| r.lookup(id) is None by {
            assert(r.entries_view().len() == 0);
        }
        r
    }

    /// Sets the delay data of `id`.
    pub fn insert(&mut self, id: NodeId, info: NodeInfo)
        ensures
            final(self).lookup(id) == Some(info),
            forall|other: NodeId| other != id ==> final(self).lookup(other) == old(self).lookup(other),
    {
        self.entries.push((id, info));
        assert(self.entries@.drop_last() =~= old(self).entries@);
    }

    /// A table of the given entries; a later entry for a node wins.
    pub fn from_pairs(pairs: &[(NodeId, NodeInfo)]) -> (r: Self)
        ensures
            r.entries_view() == pairs@,
    {
        let mut entries: Vec<(NodeId, NodeInfo)> = Vec::new();
        for i in 0..pairs.len()
            invariant
                entries@ == pairs@.take(i as int),
        {
            entries.push(pairs[i]);
            assert(pairs@.take(i + 1) =~= pairs@.take(i as int).push(pairs@[i as int]));
        }
        assert(pairs@.take(pairs@.len() as int) =~= pairs@);
        NodeInfoTable { entries }
    }

    /// The delay data of `id`, if any.
    pub fn get(&self, id: NodeId) -> (r: Option<NodeInfo>)
        ensures
            r == self.lookup(id),
    {
        let mut i = self.entries.len();
        assert(self.entries@.take(i as int) =~= self.entries@);
        while i > 0
            invariant
                i <= self.entries@.len(),
                info_lookup(self.entries@, id) == info_lookup(self.entries@.take(i as int), id),
            decreases i,
        {
            let e = self.entries[i - 1];
            assert(self.entries@.take(i as int).drop_last() =~= self.entries@.take(i - 1));
            if e.0 == id {
                return Some(e.1);
            }
            i = i - 1;
        }
        None
    }
}


/// A gate network in the order in which its nodes are simulated.
#[derive(Debug, PartialEq, Eq)]
pub struct PowerNetwork {
    name: String,
    nodes: Vec<PowerNode>,
    dfs_order: Vec<NodeId>,
}

impl PowerNetwork {
    pub closed spec fn name_view(&self) -> Seq<char> {
        self.name@
    }

    pub closed spec fn nodes_view(&self) -> Seq<PowerNode> {
        self.nodes@
    }

    pub closed spec fn order_view(&self) -> Seq<NodeId> {
        self.dfs_order@
    }

    /// An empty network.
    pub fn new(name: &str) -> (r: Self)
        ensures
            r.name_view() == name@,
            r.nodes_view() == Seq::<PowerNode>::empty(),
            r.order_view() == Seq::<NodeId>::empty(),
    {
        PowerNetwork { name: name.to_owned(), nodes: Vec::new(), dfs_order: Vec::new() }
    }

    pub fn name(&self) -> (r: &str)
        ensures
            r@ == self.name_view(),
    {
        self.name.as_str()
    }

    pub fn nodes(&self) -> (r: &[PowerNode])
        ensures
            r@ == self.nodes_view(),
    {
        self.nodes.as_slice()
    }

    /// The node `id`; an unknown id is an error.
    pub fn node(&self, id: NodeId) -> (r: Result<&PowerNode, PowerSimError>)
        ensures
            id.0 < self.nodes_view().len() ==> r == Ok::<&PowerNode, PowerSimError>(&self.nodes_view()[id.0 as int]),
            id.0 >= self.nodes_view().len() ==> r == Err::<&PowerNode, PowerSimError>(PowerSimError::UnknownNode(id)),
    {
        if id.0 < self.nodes.len() {
            Ok(&self.nodes[id.0])
        } else {
            Err(PowerSimError::UnknownNode(id))
        }
    }

    /// Adds a node at the end of the simulation order.
    pub fn add_node(&mut self, node: PowerNode) -> (r: NodeId)
        ensures
            r == NodeId(old(self).nodes_view().len() as usize),
            final(self).name_view() == old(self).name_view(),
            final(self).nodes_view() == old(self).nodes_view().push(node),
            final(self).order_view() == old(self).order_view().push(r),
    {
        let id = NodeId(self.nodes.len());
        self.nodes.push(node);
        self.dfs_order.push(id);
        id
    }

    /// Replaces the simulation order; fails on the first unknown node and
    /// then leaves the network as it was.
    pub fn set_dfs_order(&mut self, order: Vec<NodeId>) -> (r: Result<(), PowerSimError>)
        ensures
            final(self).name_view() == old(self).name_view(),
            final(self).nodes_view() == old(self).nodes_view(),
            match first_unknown(order@, old(self).nodes_view().len()) {
                Some(id) => r == Err::<(), PowerSimError>(PowerSimError::UnknownNode(id))
                    && final(self).order_view() == old(self).order_view(),
                None => r is Ok && final(self).order_view() == order@,
            },
    {
        let n = self.nodes.len();
        assert(order@.skip(0) =~= order@);
        for i in 0..order.len()
            invariant
                n == self.nodes@.len(),
                first_unknown(order@, n as nat) == first_unknown(order@.skip(i as int), n as nat),
        {
            assert(order@.skip(i as int).drop_first() =~= order@.skip(i + 1));
            if order[i].0 >= n {
                return Err(PowerSimError::UnknownNode(order[i]));
            }
        }
        assert(order@.skip(order@.len() as int).len() == 0);
        self.dfs_order = order;
        Ok(())
    }

    pub fn dfs_order(&self) -> (r: &[NodeId])
        ensures
            r@ == self.order_view(),
    {
        self.dfs_order.as_slice()
    }
}

/// The first node of `order` that is not below `n`.
pub open spec fn first_unknown(order: Seq<NodeId>, n: nat) -> Option<NodeId>
    decreases order.len(),
{
    if order.len() == 0 {
        None
    } else if order[0].0 >= n {
        Some(order[0])
    } else {
        first_unknown(order.drop_first(), n)
    }
}

#[derive(Clone, Copy, Debug, PartialEq, Eq, Structural)]
pub enum SymbolicNodeKind {
    Snapshot,
    Xor,
}

/// A fanin of a symbolic node: the original fanin and the snapshot of it
/// that the symbolic node reads.
#[derive(Clone, Copy, Debug, PartialEq, Eq, Structural)]
pub struct SymbolicFaninPatch {
    pub original_fanin: NodeId,
    pub symbolic_fanin: SymbolicNodeId,
}

#[derive(Clone, Debug, PartialEq, Eq)]
pub struct SymbolicNode {
    pub name: String,
    pub kind: SymbolicNodeKind,
    pub original: NodeId,
    pub fanins: Vec<SymbolicFaninPatch>,
}

/// The network of snapshots and transition detectors.
#[derive(Clone, Debug, PartialEq, Eq)]
pub struct SymbolicPowerNetwork {
    name: String,
    nodes: Vec<SymbolicNode>,
    primary_outputs: Vec<SymbolicNodeId>,
    max_normalized_delay: i32,
}

#[derive(Clone, Debug, PartialEq, Eq)]
pub enum PowerSimError {
    UnknownNode(NodeId),
    UnknownSymbolicNode(SymbolicNodeId),
    MissingNodeInfo { node: NodeId },
    MissingFaninDelayInfo { node: NodeId, fanin: NodeId },
    MissingNativeSupport { operation: &'static str },
}


/// A symbolic node as a value.
#[verifier::ext_equal]
pub struct SymNode {
    pub name: Seq<char>,
    pub kind: SymbolicNodeKind,
    pub original: NodeId,
    pub fanins: Seq<SymbolicFaninPatch>,
}

pub open spec fn sym_view(n: SymbolicNode) -> SymNode {
    SymNode { name: n.name@, kind: n.kind, original: n.original, fanins: n.fanins@ }
}

pub open spec fn sym_nodes_view(v: Seq<SymbolicNode>) -> Seq<SymNode> {
    Seq::new(v.len(), |i: int| sym_view(v[i]))
}

/// The switching history of a simulated node: for each transition, its
/// time and the snapshots of the node before and after it.
#[verifier::ext_equal]
pub struct Switching {
    pub times: Seq<i32>,
    pub before: Seq<SymbolicNodeId>,
    pub after: Seq<SymbolicNodeId>,
}

/// A history holds at least one transition, its three lists have one
/// length, and its times strictly increase.
pub open spec fn switching_wf(r: Switching) -> bool {
    &&& r.times.len() >= 1
    &&& r.before.len() == r.times.len()
    &&& r.after.len() == r.times.len()
    &&& forall|i: int, j: int| 0 <= i < j < r.times.len() ==> r.times[i] < r.times[j]
}

/// The construction so far: the symbolic nodes and outputs, the switching
/// history of each original node handled, and the latest transition time
/// of a gate.
#[verifier::ext_equal]
pub struct SimState {
    pub nodes: Seq<SymNode>,
    pub outputs: Seq<SymbolicNodeId>,
    pub records: Seq<Option<Switching>>,
    pub latest: int,
}

pub open spec fn snapshot(name: Seq<char>, original: NodeId, fanins: Seq<SymbolicFaninPatch>) -> SymNode {
    SymNode { name, kind: SymbolicNodeKind::Snapshot, original, fanins }
}

/// The detector of a transition of `original` between two snapshots.
pub open spec fn xor_node(name: Seq<char>, original: NodeId, before: SymbolicNodeId, after: SymbolicNodeId) -> SymNode {
    SymNode {
        name,
        kind: SymbolicNodeKind::Xor,
        original,
        fanins: seq![
            SymbolicFaninPatch { original_fanin: original, symbolic_fanin: before },
            SymbolicFaninPatch { original_fanin: original, symbolic_fanin: after },
        ],
    }
}

/// The fanins paired with the snapshots that stand for them.
pub open spec fn patched(fanins: Seq<NodeId>, symbols: Seq<SymbolicNodeId>) -> Seq<SymbolicFaninPatch> {
    Seq::new(
        if fanins.len() <= symbols.len() { fanins.len() } else { symbols.len() },
        |j: int| SymbolicFaninPatch { original_fanin: fanins[j], symbolic_fanin: symbols[j] },
    )
}

/// A primary input: snapshots before and after its one transition at time
/// 0, and the detector of that transition.
pub open spec fn input_step(st: SimState, name: Seq<char>, id: NodeId) -> SimState {
    let b = SymbolicNodeId(st.nodes.len() as usize);
    let a = SymbolicNodeId((st.nodes.len() + 1) as usize);
    let x = SymbolicNodeId((st.nodes.len() + 2) as usize);
    SimState {
        nodes: st.nodes.push(snapshot(name + "_000"@, id, seq![])).push(snapshot(name + "_ttt"@, id, seq![]))
            .push(xor_node(name + "_xor_0"@, id, b, a)),
        outputs: st.outputs.push(x),
        records: st.records.update(id.0 as int, Some(Switching { times: seq![0i32], before: seq![b], after: seq![a] })),
        latest: st.latest,
    }
}

/// A gate without fanins: one snapshot, which never switches.
pub open spec fn source_step(st: SimState, name: Seq<char>, id: NodeId) -> SimState {
    let s = SymbolicNodeId(st.nodes.len() as usize);
    SimState {
        nodes: st.nodes.push(snapshot(name, id, seq![])),
        outputs: st.outputs,
        records: st.records.update(id.0 as int, Some(Switching { times: seq![0i32], before: seq![s], after: seq![s] })),
        latest: st.latest,
    }
}

/// The first index at which `s` holds `t`.
pub open spec fn position(s: Seq<i32>, t: int) -> Option<int>
    decreases s.len(),
{
    if s.len() == 0 {
        None
    } else if s[0] == t {
        Some(0)
    } else {
        match position(s.drop_first(), t) {
            Some(k) => Some(k + 1),
            None => None,
        }
    }
}

/// What a gate is simulated with: its name and id, its fanins and their
/// histories, the earliest fanin transition, and its delay.
pub struct GateCtx {
    pub name: Seq<char>,
    pub id: NodeId,
    pub fanins: Seq<NodeId>,
    pub recs: Seq<Switching>,
    pub min: int,
    pub delay: int,
}

/// Whether fanin `j` switches in frame `f` (at time `min + f`).
pub open spec fn switched(c: GateCtx, f: int, j: int) -> bool {
    position(c.recs[j].times, c.min + f) is Some
}

/// Whether some fanin switches in frame `f`.
pub open spec fn any_switched(c: GateCtx, f: int) -> bool {
    exists|j: int| 0 <= j < c.fanins.len() && #[trigger] switched(c, f, j)
}

/// The snapshots a gate reads after the fanins that switch in frame `g`
/// have taken their new values.
pub open spec fn advanced(c: GateCtx, new: Seq<SymbolicNodeId>, g: int) -> Seq<SymbolicNodeId> {
    Seq::new(
        new.len(),
        |j: int|
            match position(c.recs[j].times, c.min + g) {
                Some(k) => c.recs[j].after[k],
                None => new[j],
            },
    )
}

/// The state of the frame walk of a gate: nodes and outputs so far, the
/// gate's own history so far, and the fanin snapshots it read before the
/// last transition (`old`) and reads now (`new`).
#[verifier::ext_equal]
pub struct FrameState {
    pub nodes: Seq<SymNode>,
    pub outputs: Seq<SymbolicNodeId>,
    pub rec: Switching,
    pub old: Seq<SymbolicNodeId>,
    pub new: Seq<SymbolicNodeId>,
}

/// Frame `f`: where some fanin switches, that gate switches `delay` later,
/// from the snapshot that reads `old` to the one that reads `new`.
pub open spec fn frame_switch(c: GateCtx, fs: FrameState, f: int) -> FrameState {
    if any_switched(c, f) {
        let b = SymbolicNodeId(fs.nodes.len() as usize);
        let a = SymbolicNodeId((fs.nodes.len() + 1) as usize);
        let x = SymbolicNodeId((fs.nodes.len() + 2) as usize);
        let t = c.min + f + c.delay;
        FrameState {
            nodes: fs.nodes.push(snapshot(c.name + "_1_"@ + decimal(f as nat), c.id, patched(c.fanins, fs.old)))
                .push(snapshot(c.name + "_2_"@ + decimal(f as nat), c.id, patched(c.fanins, fs.new)))
                .push(xor_node(c.name + "_xor_"@ + signed_decimal(t), c.id, b, a)),
            outputs: fs.outputs.push(x),
            rec: Switching { times: fs.rec.times.push(t as i32), before: fs.rec.before.push(b), after: fs.rec.after.push(a) },
            old: fs.new,
            new: fs.new,
        }
    } else {
        fs
    }
}

/// Frame `f` of `count`: the switch of frame `f`, then the fanins that
/// switch in the next frame take their new snapshots.
pub open spec fn frame_step(c: GateCtx, fs: FrameState, f: int, count: int) -> FrameState {
    let fs1 = frame_switch(c, fs, f);
    if f + 1 < count {
        FrameState { nodes: fs1.nodes, outputs: fs1.outputs, rec: fs1.rec, old: fs1.old, new: advanced(c, fs1.new, f + 1) }
    } else {
        fs1
    }
}

/// The frame walk after its first `f` frames.
pub open spec fn frames_run(c: GateCtx, fs0: FrameState, count: int, f: nat) -> FrameState
    decreases f,
{
    if f == 0 {
        fs0
    } else {
        frame_step(c, frames_run(c, fs0, count, (f - 1) as nat), f - 1, count)
    }
}

proof fn lemma_first_min_le(recs: Seq<Switching>)
    ensures
        forall|j: int| 0 <= j < recs.len() ==> first_min(recs) <= (#[trigger] recs[j]).times[0],
    decreases recs.len(),
{
    if recs.len() > 0 {
        lemma_first_min_le(recs.drop_last());
        assert forall|j: int| 0 <= j < recs.len() implies first_min(recs) <= (#[trigger] recs[j]).times[0] by {
            if j < recs.len() - 1 {
                assert(recs.drop_last()[j] == recs[j]);
            }
        }
    }
}

/// At the start of frame `f`, a fanin switching in that frame is read
/// through its snapshot after that switch.
proof fn lemma_frame_reads_after(c: GateCtx, st: SimState, count: int, f: nat)
    requires
        c.recs.len() == c.fanins.len(),
        forall|j: int| 0 <= j < c.recs.len() ==> switching_wf(#[trigger] c.recs[j]),
        c.min == first_min(c.recs),
        f < count,
    ensures
        frames_run(c, initial_frames(c, st), count, f).new.len() == c.fanins.len(),
        forall|j: int| 0 <= j < c.fanins.len() && #[trigger] switched(c, f as int, j) ==> frames_run(c, initial_frames(c, st), count, f).new[j]
            == c.recs[j].after[position(c.recs[j].times, c.min + f)->Some_0],
    decreases f,
{
    let fs0 = initial_frames(c, st);
    if f == 0 {
        lemma_first_min_le(c.recs);
        assert forall|j: int| 0 <= j < c.fanins.len() && #[trigger] switched(c, f as int, j) implies frames_run(c, fs0, count, f).new[j]
            == c.recs[j].after[position(c.recs[j].times, c.min + f)->Some_0] by {
            let r = c.recs[j];
            lemma_position(r.times, c.min + f);
            let k = position(r.times, c.min + f)->Some_0;
            assert(c.min <= r.times[0]);
            if k > 0 {
                assert(r.times[0] < r.times[k]);
            }
        }
    } else {
        lemma_frame_reads_after(c, st, count, (f - 1) as nat);
    }
}

/// Where a fanin of the node changes in frame `f`, that frame contributes
/// a snapshot of the node before the switch, one after it, and the
/// detector of the transition between them. The snapshot after it reads every fanin
/// switching in that frame through the fanin's snapshot after its switch.
pub proof fn lemma_gate_transition_reads_switched_fanins(c: GateCtx, st: SimState, count: int, f: nat)
    requires
        c.recs.len() == c.fanins.len(),
        forall|j: int| 0 <= j < c.recs.len() ==> switching_wf(#[trigger] c.recs[j]),
        c.min == first_min(c.recs),
        f < count,
        any_switched(c, f as int),
    ensures
        ({
            let fs = frames_run(c, initial_frames(c, st), count, f);
            let next = frames_run(c, initial_frames(c, st), count, f + 1);
            let base = fs.nodes.len() as int;
            &&& next.nodes.len() == base + 3
            &&& next.nodes[base + 2].kind == SymbolicNodeKind::Xor
            &&& next.nodes[base + 2].fanins == seq![
                SymbolicFaninPatch { original_fanin: c.id, symbolic_fanin: SymbolicNodeId(base as usize) },
                SymbolicFaninPatch { original_fanin: c.id, symbolic_fanin: SymbolicNodeId((base + 1) as usize) },
            ]
            &&& next.nodes[base + 1].kind == SymbolicNodeKind::Snapshot
            &&& next.nodes[base + 1].fanins.len() == c.fanins.len()
            &&& forall|j: int| 0 <= j < c.fanins.len() && #[trigger] switched(c, f as int, j) ==> next.nodes[base + 1].fanins[j]
                == (SymbolicFaninPatch {
                    original_fanin: c.fanins[j],
                    symbolic_fanin: c.recs[j].after[position(c.recs[j].times, c.min + f)->Some_0],
                })
        }),
{
    lemma_frame_reads_after(c, st, count, f);
}

/// The outputs are exactly the transition detectors, in increasing order.
pub open spec fn detectors_listed(nodes: Seq<SymNode>, outputs: Seq<SymbolicNodeId>) -> bool {
    &&& forall|i: int| 0 <= i < outputs.len() ==> ((#[trigger] outputs[i]).0 as int) < nodes.len()
        && nodes[outputs[i].0 as int].kind == SymbolicNodeKind::Xor
    &&& forall|i: int, j: int| 0 <= i < j < outputs.len() ==> (#[trigger] outputs[i]).0 < (#[trigger] outputs[j]).0
    &&& forall|k: int| 0 <= k < nodes.len() && (#[trigger] nodes[k]).kind == SymbolicNodeKind::Xor
        ==> exists|i: int| 0 <= i < outputs.len() && #[trigger] outputs[i].0 as int == k
}

proof fn lemma_push_detector(nodes: Seq<SymNode>, outputs: Seq<SymbolicNodeId>, s1: SymNode, s2: SymNode, x: SymNode)
    requires
        detectors_listed(nodes, outputs),
        s1.kind == SymbolicNodeKind::Snapshot,
        s2.kind == SymbolicNodeKind::Snapshot,
        x.kind == SymbolicNodeKind::Xor,
        nodes.len() + 3 <= usize::MAX,
    ensures
        detectors_listed(nodes.push(s1).push(s2).push(x), outputs.push(SymbolicNodeId((nodes.len() + 2) as usize))),
{
    let n2 = nodes.push(s1).push(s2).push(x);
    let o2 = outputs.push(SymbolicNodeId((nodes.len() + 2) as usize));
    assert forall|i: int| 0 <= i < o2.len() implies ((#[trigger] o2[i]).0 as int) < n2.len()
        && n2[o2[i].0 as int].kind == SymbolicNodeKind::Xor by {
        if i < outputs.len() {
            assert(o2[i] == outputs[i]);
        }
    }
    assert forall|i: int, j: int| 0 <= i < j < o2.len() implies (#[trigger] o2[i]).0 < (#[trigger] o2[j]).0 by {
        assert(o2[i] == outputs[i]);
        if j < outputs.len() {
            assert(o2[j] == outputs[j]);
        }
    }
    assert forall|k: int| 0 <= k < n2.len() && (#[trigger] n2[k]).kind == SymbolicNodeKind::Xor
        implies exists|i: int| 0 <= i < o2.len() && #[trigger] o2[i].0 as int == k by {
        if k < nodes.len() {
            assert(n2[k] == nodes[k]);
            let i = choose|i: int| 0 <= i < outputs.len() && #[trigger] outputs[i].0 as int == k;
            assert(o2[i] == outputs[i]);
        } else {
            assert(k == nodes.len() + 2);
            assert(o2[outputs.len() as int].0 as int == k);
        }
    }
}

proof fn lemma_push_snapshot(nodes: Seq<SymNode>, outputs: Seq<SymbolicNodeId>, s1: SymNode)
    requires
        detectors_listed(nodes, outputs),
        s1.kind == SymbolicNodeKind::Snapshot,
    ensures
        detectors_listed(nodes.push(s1), outputs),
{
    let n2 = nodes.push(s1);
    assert forall|i: int| 0 <= i < outputs.len() implies ((#[trigger] outputs[i]).0 as int) < n2.len()
        && n2[outputs[i].0 as int].kind == SymbolicNodeKind::Xor by {
        assert(n2[outputs[i].0 as int] == nodes[outputs[i].0 as int]);
    }
    assert forall|k: int| 0 <= k < n2.len() && (#[trigger] n2[k]).kind == SymbolicNodeKind::Xor
        implies exists|i: int| 0 <= i < outputs.len() && #[trigger] outputs[i].0 as int == k by {
        assert(n2[k] == nodes[k]);
    }
}

proof fn lemma_frames_detectors(c: GateCtx, fs0: FrameState, count: int, f: nat, bound: nat)
    requires
        detectors_listed(fs0.nodes, fs0.outputs),
        bound <= usize::MAX,
    ensures
        frames_run(c, fs0, count, f).nodes.len() >= fs0.nodes.len(),
        frames_run(c, fs0, count, f).nodes.len() <= bound ==> detectors_listed(
            frames_run(c, fs0, count, f).nodes,
            frames_run(c, fs0, count, f).outputs,
        ),
    decreases f,
{
    if f > 0 {
        lemma_frames_detectors(c, fs0, count, (f - 1) as nat, bound);
        let fs = frames_run(c, fs0, count, (f - 1) as nat);
        let fs2 = frames_run(c, fs0, count, f);
        if any_switched(c, f - 1) {
            assert(fs2.nodes.len() == fs.nodes.len() + 3);
            if fs2.nodes.len() <= bound {
                let t = c.min + (f - 1) + c.delay;
                lemma_push_detector(
                    fs.nodes,
                    fs.outputs,
                    snapshot(c.name + "_1_"@ + decimal((f - 1) as nat), c.id, patched(c.fanins, fs.old)),
                    snapshot(c.name + "_2_"@ + decimal((f - 1) as nat), c.id, patched(c.fanins, fs.new)),
                    xor_node(c.name + "_xor_"@ + signed_decimal(t), c.id, SymbolicNodeId(fs.nodes.len() as usize),
                        SymbolicNodeId((fs.nodes.len() + 1) as usize)),
                );
            }
        }
    }
}

proof fn lemma_frames_len(c: GateCtx, fs0: FrameState, count: int, f: nat)
    ensures
        frames_run(c, fs0, count, f).nodes.len() >= fs0.nodes.len(),
    decreases f,
{
    if f > 0 {
        lemma_frames_len(c, fs0, count, (f - 1) as nat);
    }
}

proof fn lemma_step_detectors_len(nodes: Seq<PowerNode>, info: Seq<(NodeId, NodeInfo)>, st: SimState, id: NodeId)
    ensures
        node_step(nodes, info, st, id) matches Ok(s2) ==> s2.nodes.len() >= st.nodes.len(),
{
    if id.0 < nodes.len() {
        let node = nodes[id.0 as int];
        if node.kind == PowerNodeKind::Internal && node.fanins@.len() > 0 && info_lookup(info, id) is Some
            && first_missing(st.records, node.fanins@) is None {
            let ni = info_lookup(info, id)->Some_0;
            let c = gate_ctx(st, node, id, ni.delay);
            let max = last_max(c.recs);
            let count = max - c.min + 1;
            lemma_frames_len(c, initial_frames(c, st), count, count as nat);
        }
    }
}

proof fn lemma_step_detectors(nodes: Seq<PowerNode>, info: Seq<(NodeId, NodeInfo)>, st: SimState, id: NodeId, bound: nat)
    requires
        detectors_listed(st.nodes, st.outputs),
        bound <= usize::MAX,
    ensures
        node_step(nodes, info, st, id) matches Ok(s2) ==> s2.nodes.len() >= st.nodes.len()
            && (s2.nodes.len() <= bound ==> detectors_listed(s2.nodes, s2.outputs)),
{
    if id.0 < nodes.len() {
        let node = nodes[id.0 as int];
        match node.kind {
            PowerNodeKind::PrimaryInput => {
                if st.nodes.len() + 3 <= bound {
                    lemma_push_detector(st.nodes, st.outputs, snapshot(node.name@ + "_000"@, id, seq![]),
                        snapshot(node.name@ + "_ttt"@, id, seq![]),
                        xor_node(node.name@ + "_xor_0"@, id, SymbolicNodeId(st.nodes.len() as usize),
                            SymbolicNodeId((st.nodes.len() + 1) as usize)));
                }
            },
            PowerNodeKind::PrimaryOutput => {},
            PowerNodeKind::Internal => {
                if node.fanins@.len() == 0 {
                    lemma_push_snapshot(st.nodes, st.outputs, snapshot(node.name@, id, seq![]));
                } else if info_lookup(info, id) is Some && first_missing(st.records, node.fanins@) is None {
                    let ni = info_lookup(info, id)->Some_0;
                    let c = gate_ctx(st, node, id, ni.delay);
                    let max = last_max(c.recs);
                    let count = max - c.min + 1;
                    let fs0 = initial_frames(c, st);
                    lemma_frames_detectors(c, fs0, count, count as nat, bound);
                }
            },
        }
    }
}

/// Every output of the symbolic network is a transition detector (an XOR
/// node), listed in increasing order, and every detector is an output.
pub proof fn lemma_outputs_are_detectors(nodes: Seq<PowerNode>, order: Seq<NodeId>, info: Seq<(NodeId, NodeInfo)>, k: nat)
    requires
        k <= order.len(),
    ensures
        match sim_run(nodes, order, info, k) {
            Ok(st) => st.nodes.len() <= usize::MAX ==> detectors_listed(st.nodes, st.outputs),
            Err(_) => true,
        },
{
    lemma_run_detectors(nodes, order, info, k, usize::MAX as nat);
}

proof fn lemma_run_detectors(nodes: Seq<PowerNode>, order: Seq<NodeId>, info: Seq<(NodeId, NodeInfo)>, k: nat, bound: nat)
    requires
        k <= order.len(),
        bound <= usize::MAX,
    ensures
        match sim_run(nodes, order, info, k) {
            Ok(st) => st.nodes.len() <= bound ==> detectors_listed(st.nodes, st.outputs),
            Err(_) => true,
        },
    decreases k,
{
    if k > 0 {
        lemma_run_detectors(nodes, order, info, (k - 1) as nat, bound);
        if let Ok(prev) = sim_run(nodes, order, info, (k - 1) as nat) {
            if let Ok(st) = sim_run(nodes, order, info, k) {
                if st.nodes.len() <= bound {
                    lemma_step_detectors_len(nodes, info, prev, order[k - 1]);
                    lemma_step_detectors(nodes, info, prev, order[k - 1], bound);
                }
            }
        }
    }
}

/// Whether `f` has a switching history in `records`.
pub open spec fn has_record(records: Seq<Option<Switching>>, f: NodeId) -> bool {
    f.0 < records.len() && records[f.0 as int] is Some
}

/// The first fanin without a switching history.
pub open spec fn first_missing(records: Seq<Option<Switching>>, fanins: Seq<NodeId>) -> Option<NodeId>
    decreases fanins.len(),
{
    if fanins.len() == 0 {
        None
    } else if !has_record(records, fanins[0]) {
        Some(fanins[0])
    } else {
        first_missing(records, fanins.drop_first())
    }
}

pub open spec fn fanin_records(records: Seq<Option<Switching>>, fanins: Seq<NodeId>) -> Seq<Switching> {
    Seq::new(fanins.len(), |j: int| records[fanins[j].0 as int]->Some_0)
}

/// The earliest first transition of the histories (`i32::MAX` for none).
pub open spec fn first_min(recs: Seq<Switching>) -> int
    decreases recs.len(),
{
    if recs.len() == 0 {
        i32::MAX as int
    } else {
        let m = first_min(recs.drop_last());
        let t = recs.last().times[0] as int;
        if t < m { t } else { m }
    }
}

/// The latest last transition of the histories (`i32::MIN` for none).
pub open spec fn last_max(recs: Seq<Switching>) -> int
    decreases recs.len(),
{
    if recs.len() == 0 {
        i32::MIN as int
    } else {
        let m = last_max(recs.drop_last());
        let t = recs.last().times[recs.last().times.len() - 1] as int;
        if t > m { t } else { m }
    }
}

pub open spec fn gate_ctx(st: SimState, node: PowerNode, id: NodeId, delay: i32) -> GateCtx {
    let recs = fanin_records(st.records, node.fanins@);
    GateCtx { name: node.name@, id, fanins: node.fanins@, recs, min: first_min(recs), delay: delay as int }
}

/// The frame walk's start: a gate reads each fanin's first "before"
/// snapshot, and now reads the "after" one of the fanins that switch first.
pub open spec fn initial_frames(c: GateCtx, st: SimState) -> FrameState {
    FrameState {
        nodes: st.nodes,
        outputs: st.outputs,
        rec: Switching { times: seq![], before: seq![], after: seq![] },
        old: Seq::new(c.fanins.len(), |j: int| c.recs[j].before[0]),
        new: Seq::new(
            c.fanins.len(),
            |j: int| if c.recs[j].times[0] == c.min { c.recs[j].after[0] } else { c.recs[j].before[0] },
        ),
    }
}

/// A gate with fanins, all simulated: a frame per time step from the
/// earliest to the latest fanin transition.
pub open spec fn gate_step(st: SimState, node: PowerNode, id: NodeId, delay: i32) -> SimState {
    let c = gate_ctx(st, node, id, delay);
    let max = last_max(c.recs);
    let count = max - c.min + 1;
    let fs = frames_run(c, initial_frames(c, st), count, count as nat);
    SimState {
        nodes: fs.nodes,
        outputs: fs.outputs,
        records: st.records.update(id.0 as int, Some(fs.rec)),
        latest: if max + delay > st.latest { max + delay } else { st.latest },
    }
}

/// Handling node `id` of the order.
pub open spec fn node_step(
    nodes: Seq<PowerNode>,
    info: Seq<(NodeId, NodeInfo)>,
    st: SimState,
    id: NodeId,
) -> Result<SimState, PowerSimError> {
    if id.0 >= nodes.len() {
        Err(PowerSimError::UnknownNode(id))
    } else {
        let node = nodes[id.0 as int];
        match node.kind {
            PowerNodeKind::PrimaryInput => Ok(input_step(st, node.name@, id)),
            PowerNodeKind::PrimaryOutput => Ok(st),
            PowerNodeKind::Internal => if node.fanins@.len() == 0 {
                Ok(source_step(st, node.name@, id))
            } else {
                match info_lookup(info, id) {
                    None => Err(PowerSimError::MissingNodeInfo { node: id }),
                    Some(ni) => match first_missing(st.records, node.fanins@) {
                        Some(f) => Err(PowerSimError::MissingFaninDelayInfo { node: id, fanin: f }),
                        None => Ok(gate_step(st, node, id, ni.delay)),
                    },
                }
            },
        }
    }
}

pub open spec fn initial_state(n: nat) -> SimState {
    SimState { nodes: seq![], outputs: seq![], records: Seq::new(n, |i: int| None), latest: i32::MIN as int }
}

/// The construction after the first `k` nodes of `order`.
pub open spec fn sim_run(
    nodes: Seq<PowerNode>,
    order: Seq<NodeId>,
    info: Seq<(NodeId, NodeInfo)>,
    k: nat,
) -> Result<SimState, PowerSimError>
    decreases k,
{
    if k == 0 {
        Ok(initial_state(nodes.len()))
    } else {
        match sim_run(nodes, order, info, (k - 1) as nat) {
            Err(e) => Err(e),
            Ok(st) => node_step(nodes, info, st, order[k - 1]),
        }
    }
}

/// The times a gate's walk computes fit in `i32`.
pub open spec fn gate_fits(st: SimState, node: PowerNode, delay: i32) -> bool {
    let recs = fanin_records(st.records, node.fanins@);
    let min = first_min(recs);
    let max = last_max(recs);
    &&& i32::MIN <= min + delay
    &&& max + delay <= i32::MAX
    &&& max - min + 1 <= i32::MAX
}

pub open spec fn step_fits(nodes: Seq<PowerNode>, info: Seq<(NodeId, NodeInfo)>, st: SimState, id: NodeId) -> bool {
    id.0 < nodes.len() && nodes[id.0 as int].kind == PowerNodeKind::Internal && nodes[id.0 as int].fanins@.len() > 0
        && info_lookup(info, id) is Some && first_missing(st.records, nodes[id.0 as int].fanins@) is None
        ==> gate_fits(st, nodes[id.0 as int], info_lookup(info, id)->Some_0.delay)
}

/// No transition time of the first `k` nodes leaves the `i32` range.
pub open spec fn run_fits(nodes: Seq<PowerNode>, order: Seq<NodeId>, info: Seq<(NodeId, NodeInfo)>, k: nat) -> bool
    decreases k,
{
    k == 0 || (run_fits(nodes, order, info, (k - 1) as nat) && match sim_run(nodes, order, info, (k - 1) as nat) {
        Ok(st) => step_fits(nodes, info, st, order[k - 1]),
        Err(_) => true,
    })
}


impl SymbolicPowerNetwork {
    pub closed spec fn name_view(&self) -> Seq<char> {
        self.name@
    }

    pub closed spec fn nodes_view(&self) -> Seq<SymNode> {
        sym_nodes_view(self.nodes@)
    }

    pub closed spec fn outputs_view(&self) -> Seq<SymbolicNodeId> {
        self.primary_outputs@
    }

    pub closed spec fn delay_view(&self) -> i32 {
        self.max_normalized_delay
    }

    pub fn name(&self) -> (r: &str)
        ensures
            r@ == self.name_view(),
    {
        self.name.as_str()
    }

    pub fn nodes(&self) -> (r: &[SymbolicNode])
        ensures
            sym_nodes_view(r@) == self.nodes_view(),
    {
        self.nodes.as_slice()
    }

    pub fn primary_outputs(&self) -> (r: &[SymbolicNodeId])
        ensures
            r@ == self.outputs_view(),
    {
        self.primary_outputs.as_slice()
    }

    pub fn max_normalized_delay(&self) -> (r: i32)
        ensures
            r == self.delay_view(),
    {
        self.max_normalized_delay
    }

    /// The node `id`; an unknown id is an error.
    pub fn node(&self, id: SymbolicNodeId) -> (r: Result<&SymbolicNode, PowerSimError>)
        ensures
            id.0 < self.nodes_view().len() ==> (r matches Ok(n) && sym_view(*n) == self.nodes_view()[id.0 as int]),
            id.0 >= self.nodes_view().len() ==> r == Err::<&SymbolicNode, PowerSimError>(PowerSimError::UnknownSymbolicNode(id)),
    {
        if id.0 < self.nodes.len() {
            Ok(&self.nodes[id.0])
        } else {
            Err(PowerSimError::UnknownSymbolicNode(id))
        }
    }

    fn empty(name: String) -> (r: Self)
        ensures
            r.name == name,
            r.nodes@ == Seq::<SymbolicNode>::empty(),
            r.primary_outputs@ == Seq::<SymbolicNodeId>::empty(),
    {
        SymbolicPowerNetwork { name, nodes: Vec::new(), primary_outputs: Vec::new(), max_normalized_delay: 0 }
    }

    fn add_snapshot(&mut self, name: String, original: NodeId, fanins: Vec<SymbolicFaninPatch>) -> (r: SymbolicNodeId)
        ensures
            r == SymbolicNodeId(old(self).nodes@.len() as usize),
            sym_nodes_view(final(self).nodes@) == sym_nodes_view(old(self).nodes@).push(snapshot(name@, original, fanins@)),
            final(self).primary_outputs == old(self).primary_outputs,
            final(self).name == old(self).name,
    {
        let id = SymbolicNodeId(self.nodes.len());
        let node = SymbolicNode { name, kind: SymbolicNodeKind::Snapshot, original, fanins };
        self.nodes.push(node);
        assert(sym_nodes_view(self.nodes@) =~= sym_nodes_view(old(self).nodes@).push(sym_view(node)));
        id
    }

    fn add_xor(&mut self, name: String, original: NodeId, before: SymbolicNodeId, after: SymbolicNodeId) -> (r: SymbolicNodeId)
        ensures
            r == SymbolicNodeId(old(self).nodes@.len() as usize),
            sym_nodes_view(final(self).nodes@) == sym_nodes_view(old(self).nodes@).push(xor_node(name@, original, before, after)),
            final(self).primary_outputs@ == old(self).primary_outputs@.push(r),
            final(self).name == old(self).name,
    {
        let id = SymbolicNodeId(self.nodes.len());
        let mut fanins: Vec<SymbolicFaninPatch> = Vec::new();
        fanins.push(SymbolicFaninPatch { original_fanin: original, symbolic_fanin: before });
        fanins.push(SymbolicFaninPatch { original_fanin: original, symbolic_fanin: after });
        let node = SymbolicNode { name, kind: SymbolicNodeKind::Xor, original, fanins };
        self.nodes.push(node);
        assert(sym_view(node) == xor_node(name@, original, before, after)) by {
            assert(fanins@ =~= xor_node(name@, original, before, after).fanins);
        }
        assert(sym_nodes_view(self.nodes@) =~= sym_nodes_view(old(self).nodes@).push(sym_view(node)));
        self.primary_outputs.push(id);
        id
    }
}

/// `base` followed by `suffix`.
fn name_with(base: &str, suffix: &str) -> (r: String)
    ensures
        r@ == base@ + suffix@,
{
    let mut s = String::new();
    push_str(&mut s, base);
    push_str(&mut s, suffix);
    assert(s@ =~= base@ + suffix@);
    s
}

/// `base`, a tag and a frame number.
fn frame_name(base: &str, tag: &str, f: usize) -> (r: String)
    ensures
        r@ == base@ + tag@ + decimal(f as nat),
{
    let mut s = String::new();
    push_str(&mut s, base);
    push_str(&mut s, tag);
    push_decimal(&mut s, f as u64);
    assert(s@ =~= base@ + tag@ + decimal(f as nat));
    s
}

/// The name of the detector of a transition at time `t`.
fn time_name(base: &str, t: i32) -> (r: String)
    ensures
        r@ == base@ + "_xor_"@ + signed_decimal(t as int),
{
    let mut s = String::new();
    push_str(&mut s, base);
    push_str(&mut s, "_xor_");
    push_signed_decimal(&mut s, t as i64);
    assert(s@ =~= base@ + "_xor_"@ + signed_decimal(t as int));
    s
}

proof fn lemma_position(s: Seq<i32>, t: int)
    ensures
        match position(s, t) {
            Some(k) => 0 <= k < s.len() && s[k] == t && forall|i: int| 0 <= i < k ==> s[i] != t,
            None => forall|i: int| 0 <= i < s.len() ==> s[i] != t,
        },
    decreases s.len(),
{
    if s.len() > 0 && s[0] != t {
        lemma_position(s.drop_first(), t);
        assert forall|i: int| 1 <= i < s.len() implies s[i] == s.drop_first()[i - 1] by {}
    }
}

/// The first index at which `times` holds `t`.
fn find_time(times: &Vec<i32>, t: i32) -> (r: Option<usize>)
    ensures
        r is None <==> position(times@, t as int) is None,
        r matches Some(k) ==> position(times@, t as int) == Some(k as int) && k < times@.len(),
{
    proof {
        lemma_position(times@, t as int);
    }
    for i in 0..times.len()
        invariant
            forall|k: int| 0 <= k < i ==> times@[k] != t,
            match position(times@, t as int) {
                Some(k) => 0 <= k < times@.len() && times@[k] == t && forall|m: int| 0 <= m < k ==> times@[m] != t,
                None => forall|m: int| 0 <= m < times@.len() ==> times@[m] != t,
            },
    {
        if times[i] == t {
            return Some(i);
        }
    }
    None
}


/// The switching history of a simulated node, as the construction keeps it.
struct DelayInfo {
    before_switching: Vec<SymbolicNodeId>,
    after_switching: Vec<SymbolicNodeId>,
    switching_times: Vec<i32>,
}

spec fn delay_view(d: DelayInfo) -> Switching {
    Switching { times: d.switching_times@, before: d.before_switching@, after: d.after_switching@ }
}

spec fn records_view(v: Seq<Option<DelayInfo>>) -> Seq<Option<Switching>> {
    Seq::new(
        v.len(),
        |i: int|
            match v[i] {
                Some(d) => Some(delay_view(d)),
                None => None,
            },
    )
}

/// Every history present is well formed.
pub open spec fn records_wf(records: Seq<Option<Switching>>) -> bool {
    forall|i: int| 0 <= i < records.len() && (#[trigger] records[i]) is Some ==> switching_wf(records[i]->Some_0)
}

/// The histories `recs` are those that `records` holds for `fanins`.
spec fn recs_match(records: Seq<Option<DelayInfo>>, fanins: Seq<NodeId>, recs: Seq<Switching>) -> bool {
    &&& recs.len() == fanins.len()
    &&& forall|j: int|
        #![trigger fanins[j]]
        0 <= j < fanins.len() ==> {
            &&& fanins[j].0 < records.len()
            &&& records[fanins[j].0 as int] is Some
            &&& delay_view(records[fanins[j].0 as int]->Some_0) == recs[j]
            &&& switching_wf(recs[j])
        }
}

proof fn lemma_first_missing(records: Seq<Option<Switching>>, fanins: Seq<NodeId>)
    ensures
        first_missing(records, fanins) is None <==> forall|j: int| 0 <= j < fanins.len() ==> has_record(records, #[trigger] fanins[j]),
    decreases fanins.len(),
{
    if fanins.len() > 0 {
        lemma_first_missing(records, fanins.drop_first());
        assert forall|j: int| 1 <= j < fanins.len() implies fanins[j] == fanins.drop_first()[j - 1] by {}
        if forall|j: int| 0 <= j < fanins.len() ==> has_record(records, #[trigger] fanins[j]) {
            assert(has_record(records, fanins[0]));
            assert forall|j: int| 0 <= j < fanins.drop_first().len() implies has_record(records, #[trigger] fanins.drop_first()[j]) by {
                assert(has_record(records, fanins[j + 1]));
            }
        }
    }
}

proof fn lemma_first_missing_at(records: Seq<Option<Switching>>, fanins: Seq<NodeId>, j: int)
    requires
        0 <= j < fanins.len(),
        forall|i: int| 0 <= i < j ==> has_record(records, #[trigger] fanins[i]),
        !has_record(records, fanins[j]),
    ensures
        first_missing(records, fanins) == Some(fanins[j]),
    decreases fanins.len(),
{
    if j > 0 {
        assert(has_record(records, fanins[0]));
        assert forall|i: int| 0 <= i < j - 1 implies has_record(records, #[trigger] fanins.drop_first()[i]) by {
            assert(has_record(records, fanins[i + 1]));
        }
        lemma_first_missing_at(records, fanins.drop_first(), j - 1);
    }
}

/// The first fanin without a history.
fn find_missing(records: &Vec<Option<DelayInfo>>, fanins: &Vec<NodeId>) -> (r: Option<NodeId>)
    ensures
        r == first_missing(records_view(records@), fanins@),
{
    let ghost rv = records_view(records@);
    for j in 0..fanins.len()
        invariant
            rv == records_view(records@),
            forall|i: int| 0 <= i < j ==> has_record(rv, #[trigger] fanins@[i]),
    {
        let f = fanins[j];
        if f.0 >= records.len() || records[f.0].is_none() {
            proof {
                lemma_first_missing_at(rv, fanins@, j as int);
            }
            return Some(f);
        }
    }
    proof {
        lemma_first_missing(rv, fanins@);
    }
    None
}

/// Whether some fanin switches at time `t`, frame `f` of a gate.
fn switch_at(records: &Vec<Option<DelayInfo>>, fanins: &Vec<NodeId>, t: i32, Ghost(c): Ghost<GateCtx>, Ghost(f): Ghost<int>) -> (r: bool)
    requires
        recs_match(records@, fanins@, c.recs),
        c.fanins == fanins@,
        c.min + f == t,
    ensures
        r == any_switched(c, f),
{
    for j in 0..fanins.len()
        invariant
            recs_match(records@, fanins@, c.recs),
            c.fanins == fanins@,
            c.min + f == t,
            forall|i: int| 0 <= i < j ==> !switched(c, f, i),
    {
        let fj = fanins[j];
        let d = records[fj.0].as_ref().unwrap();
        assert(delay_view(*d) == c.recs[j as int]);
        if find_time(&d.switching_times, t).is_some() {
            assert(switched(c, f, j as int));
            return true;
        }
    }
    false
}

/// Gives each fanin that switches at time `t` (frame `g`) its new snapshot.
fn advance_to(
    records: &Vec<Option<DelayInfo>>,
    fanins: &Vec<NodeId>,
    t: i32,
    new: &mut Vec<SymbolicNodeId>,
    Ghost(c): Ghost<GateCtx>,
    Ghost(g): Ghost<int>,
)
    requires
        recs_match(records@, fanins@, c.recs),
        c.fanins == fanins@,
        c.min + g == t,
        old(new)@.len() == fanins@.len(),
    ensures
        final(new)@ == advanced(c, old(new)@, g),
{
    let ghost target = advanced(c, old(new)@, g);
    for j in 0..fanins.len()
        invariant
            recs_match(records@, fanins@, c.recs),
            c.fanins == fanins@,
            c.min + g == t,
            target == advanced(c, old(new)@, g),
            new@.len() == fanins@.len(),
            old(new)@.len() == fanins@.len(),
            forall|i: int| 0 <= i < j ==> new@[i] == target[i],
            forall|i: int| j <= i < fanins@.len() ==> new@[i] == old(new)@[i],
    {
        let fj = fanins[j];
        let d = records[fj.0].as_ref().unwrap();
        assert(delay_view(*d) == c.recs[j as int]);
        assert(target[j as int] == match position(d.switching_times@, t as int) {
            Some(k) => c.recs[j as int].after[k],
            None => old(new)@[j as int],
        });
        match find_time(&d.switching_times, t) {
            Some(k) => {
                proof {
                    lemma_position(d.switching_times@, t as int);
                }
                assert(position(d.switching_times@, t as int) == Some(k as int));
                assert(target[j as int] == d.after_switching@[k as int]);
                new.set(j, d.after_switching[k]);
            },
            None => {
                assert(target[j as int] == old(new)@[j as int]);
            },
        }
    }
    assert(new@ =~= target);
}


proof fn lemma_min_max(recs: Seq<Switching>, j: int)
    requires
        0 <= j < recs.len(),
        forall|i: int| 0 <= i < recs.len() ==> switching_wf(#[trigger] recs[i]),
    ensures
        first_min(recs) <= recs[j].times[0],
        recs[j].times[0] <= recs[j].times[recs[j].times.len() - 1],
        recs[j].times[recs[j].times.len() - 1] <= last_max(recs),
    decreases recs.len(),
{
    let r = recs[j];
    if r.times.len() > 1 {
        assert(r.times[0] < r.times[r.times.len() - 1]);
    }
    if j < recs.len() - 1 {
        assert forall|i: int| 0 <= i < recs.drop_last().len() implies switching_wf(#[trigger] recs.drop_last()[i]) by {
            assert(recs.drop_last()[i] == recs[i]);
        }
        assert(recs.drop_last()[j] == recs[j]);
        lemma_min_max(recs.drop_last(), j);
    }
}

/// What the frame walk keeps after `f` frames.
spec fn frames_ok(c: GateCtx, fs: FrameState, f: int) -> bool {
    &&& fs.rec.before.len() == fs.rec.times.len()
    &&& fs.rec.after.len() == fs.rec.times.len()
    &&& forall|i: int, k: int| 0 <= i < k < fs.rec.times.len() ==> fs.rec.times[i] < fs.rec.times[k]
    &&& forall|i: int| 0 <= i < fs.rec.times.len() ==> fs.rec.times[i] < c.min + f + c.delay
    &&& fs.old.len() == c.fanins.len()
    &&& fs.new.len() == c.fanins.len()
    &&& (exists|g: int| 0 <= g < f && #[trigger] any_switched(c, g)) ==> fs.rec.times.len() >= 1
}

proof fn lemma_frames(c: GateCtx, fs0: FrameState, count: int, f: nat)
    requires
        fs0.rec.times.len() == 0,
        fs0.rec.before.len() == 0,
        fs0.rec.after.len() == 0,
        fs0.old.len() == c.fanins.len(),
        fs0.new.len() == c.fanins.len(),
        f <= count,
        i32::MIN <= c.min + c.delay,
        c.min + count - 1 + c.delay <= i32::MAX,
    ensures
        frames_ok(c, frames_run(c, fs0, count, f), f as int),
    decreases f,
{
    if f > 0 {
        let g = f - 1;
        lemma_frames(c, fs0, count, g as nat);
        let prev = frames_run(c, fs0, count, g as nat);
        let cur = frames_run(c, fs0, count, f);
        let t = c.min + g + c.delay;
        assert((t as i32) as int == t);
        if any_switched(c, g) {
            assert(cur.rec.times == prev.rec.times.push(t as i32));
            assert forall|i: int, k: int| 0 <= i < k < cur.rec.times.len() implies cur.rec.times[i] < cur.rec.times[k] by {
                if k < prev.rec.times.len() {
                    assert(cur.rec.times[i] == prev.rec.times[i]);
                    assert(cur.rec.times[k] == prev.rec.times[k]);
                }
            }
        } else {
            assert(cur.rec == prev.rec);
        }
        if exists|h: int| 0 <= h < f && #[trigger] any_switched(c, h) {
            let h = choose|h: int| 0 <= h < f && #[trigger] any_switched(c, h);
            if h < g {
                assert(exists|h2: int| 0 <= h2 < g && #[trigger] any_switched(c, h2));
            }
        }
    }
}

/// The state seen through views.
spec fn state_of(s: SymbolicPowerNetwork, records: Seq<Option<DelayInfo>>, latest: i32) -> SimState {
    SimState { nodes: sym_nodes_view(s.nodes@), outputs: s.primary_outputs@, records: records_view(records), latest: latest as int }
}

spec fn frame_view(s: SymbolicPowerNetwork, info: DelayInfo, old: Seq<SymbolicNodeId>, new: Seq<SymbolicNodeId>) -> FrameState {
    FrameState { nodes: sym_nodes_view(s.nodes@), outputs: s.primary_outputs@, rec: delay_view(info), old, new }
}

/// The fanins paired with their snapshots.
fn patch_vec(fanins: &Vec<NodeId>, symbols: &Vec<SymbolicNodeId>) -> (r: Vec<SymbolicFaninPatch>)
    requires
        fanins@.len() == symbols@.len(),
    ensures
        r@ == patched(fanins@, symbols@),
{
    let mut out: Vec<SymbolicFaninPatch> = Vec::new();
    for j in 0..fanins.len()
        invariant
            fanins@.len() == symbols@.len(),
            out@ == patched(fanins@, symbols@).take(j as int),
    {
        out.push(SymbolicFaninPatch { original_fanin: fanins[j], symbolic_fanin: symbols[j] });
        assert(patched(fanins@, symbols@).take(j + 1) =~= patched(fanins@, symbols@).take(j as int).push(
            SymbolicFaninPatch { original_fanin: fanins@[j as int], symbolic_fanin: symbols@[j as int] },
        ));
    }
    assert(patched(fanins@, symbols@).take(fanins@.len() as int) =~= patched(fanins@, symbols@));
    out
}

fn copy_ids(v: &Vec<SymbolicNodeId>) -> (r: Vec<SymbolicNodeId>)
    ensures
        r@ == v@,
{
    let mut out: Vec<SymbolicNodeId> = Vec::new();
    for j in 0..v.len()
        invariant
            out@ == v@.take(j as int),
    {
        out.push(v[j]);
        assert(v@.take(j + 1) =~= v@.take(j as int).push(v@[j as int]));
    }
    assert(v@.take(v@.len() as int) =~= v@);
    out
}


/// Simulates a gate with fanins, all of which have histories.
#[verifier::rlimit(50)]
fn handle_gate(
    symbolic: &mut SymbolicPowerNetwork,
    records: &mut Vec<Option<DelayInfo>>,
    node: &PowerNode,
    id: NodeId,
    delay: i32,
    latest: &mut i32,
)
    requires
        id.0 < old(records)@.len(),
        node.fanins@.len() > 0,
        records_wf(records_view(old(records)@)),
        first_missing(records_view(old(records)@), node.fanins@) is None,
        gate_fits(state_of(*old(symbolic), old(records)@, *old(latest)), *node, delay),
    ensures
        state_of(*final(symbolic), final(records)@, *final(latest)) == gate_step(
            state_of(*old(symbolic), old(records)@, *old(latest)),
            *node,
            id,
            delay,
        ),
        final(symbolic).name == old(symbolic).name,
        final(records)@.len() == old(records)@.len(),
        records_wf(records_view(final(records)@)),
{
    let ghost st = state_of(*symbolic, records@, *latest);
    let ghost c = gate_ctx(st, *node, id, delay);
    let n = node.fanins.len();
    proof {
        lemma_first_missing(st.records, node.fanins@);
        assert forall|j: int|
            #![trigger node.fanins@[j]]
            0 <= j < node.fanins@.len() implies {
            &&& node.fanins@[j].0 < records@.len()
            &&& records@[node.fanins@[j].0 as int] is Some
            &&& delay_view(records@[node.fanins@[j].0 as int]->Some_0) == c.recs[j]
            &&& switching_wf(c.recs[j])
        } by {
            assert(has_record(st.records, node.fanins@[j]));
            assert(st.records[node.fanins@[j].0 as int] is Some);
        }
        assert(recs_match(records@, node.fanins@, c.recs));
        assert forall|i: int| 0 <= i < c.recs.len() implies switching_wf(#[trigger] c.recs[i]) by {
            assert(switching_wf(c.recs[i]));
        }
        lemma_min_max(c.recs, 0);
    }
    let mut min: i32 = i32::MAX;
    let mut max: i32 = i32::MIN;
    for j in 0..n
        invariant
            n == node.fanins@.len(),
            recs_match(records@, node.fanins@, c.recs),
            min == first_min(c.recs.take(j as int)),
            max == last_max(c.recs.take(j as int)),
    {
        let d = records[node.fanins[j].0].as_ref().unwrap();
        assert(delay_view(*d) == c.recs[j as int]);
        let first = d.switching_times[0];
        let last = d.switching_times[d.switching_times.len() - 1];
        assert(c.recs.take(j + 1).drop_last() =~= c.recs.take(j as int));
        assert(c.recs.take(j + 1).last() == c.recs[j as int]);
        if first < min {
            min = first;
        }
        if last > max {
            max = last;
        }
    }
    assert(c.recs.take(n as int) =~= c.recs);
    assert(min as int == c.min);
    if max + delay > *latest {
        *latest = max + delay;
    }
    let count: usize = (max - min + 1) as usize;
    let ghost fs0 = initial_frames(c, st);
    let mut old_to_gate: Vec<SymbolicNodeId> = Vec::new();
    let mut new_to_gate: Vec<SymbolicNodeId> = Vec::new();
    for j in 0..n
        invariant
            n == node.fanins@.len(),
            recs_match(records@, node.fanins@, c.recs),
            min as int == c.min,
            c == gate_ctx(st, *node, id, delay),
            fs0 == initial_frames(c, st),
            old_to_gate@ == fs0.old.take(j as int),
            new_to_gate@ == fs0.new.take(j as int),
    {
        let d = records[node.fanins[j].0].as_ref().unwrap();
        assert(delay_view(*d) == c.recs[j as int]);
        old_to_gate.push(d.before_switching[0]);
        if d.switching_times[0] == min {
            new_to_gate.push(d.after_switching[0]);
        } else {
            new_to_gate.push(d.before_switching[0]);
        }
        assert(fs0.old.take(j + 1) =~= fs0.old.take(j as int).push(fs0.old[j as int]));
        assert(fs0.new.take(j + 1) =~= fs0.new.take(j as int).push(fs0.new[j as int]));
    }
    assert(fs0.old.take(n as int) =~= fs0.old);
    assert(fs0.new.take(n as int) =~= fs0.new);
    let mut info = DelayInfo { before_switching: Vec::new(), after_switching: Vec::new(), switching_times: Vec::new() };
    assert(frame_view(*symbolic, info, old_to_gate@, new_to_gate@) =~= fs0);
    let ghost cnt: int = count as int;
    let mut f: usize = 0;
    while f < count
        invariant
            n == node.fanins@.len(),
            recs_match(records@, node.fanins@, c.recs),
            min as int == c.min,
            c.delay == delay as int,
            c.fanins == node.fanins@,
            c.name == node.name@,
            c.id == id,
            cnt == count as int,
            cnt == last_max(c.recs) - c.min + 1,
            max as int == last_max(c.recs),
            cnt <= i32::MAX,
            f <= count,
            i32::MIN <= c.min + c.delay,
            c.min + cnt - 1 + c.delay <= i32::MAX,
            fs0.rec.times.len() == 0,
            fs0.rec.before.len() == 0,
            fs0.rec.after.len() == 0,
            fs0.old.len() == n,
            fs0.new.len() == n,
            frame_view(*symbolic, info, old_to_gate@, new_to_gate@) == frames_run(c, fs0, cnt, f as nat),
            symbolic.name == old(symbolic).name,
        decreases count - f,
    {
        proof {
            lemma_frames(c, fs0, cnt, f as nat);
        }
        let ghost prev = frames_run(c, fs0, cnt, f as nat);
        let t_frame: i32 = min + f as i32;
        let sw = switch_at(records, &node.fanins, t_frame, Ghost(c), Ghost(f as int));
        if sw {
            let before_fanins = patch_vec(&node.fanins, &old_to_gate);
            let after_fanins = patch_vec(&node.fanins, &new_to_gate);
            let name1 = frame_name(node.name.as_str(), "_1_", f);
            let b = symbolic.add_snapshot(name1, id, before_fanins);
            assert(sym_nodes_view(symbolic.nodes@) == prev.nodes.push(
                snapshot(c.name + "_1_"@ + decimal(f as nat), c.id, patched(c.fanins, prev.old)),
            ));
            let name2 = frame_name(node.name.as_str(), "_2_", f);
            let a = symbolic.add_snapshot(name2, id, after_fanins);
            assert(b == SymbolicNodeId(prev.nodes.len() as usize));
            assert(a == SymbolicNodeId((prev.nodes.len() + 1) as usize));
            assert(sym_nodes_view(symbolic.nodes@).len() == symbolic.nodes@.len());
            assert(symbolic.nodes@.len() == prev.nodes.len() + 2);
            let t: i32 = t_frame + delay;
            assert(t as int == c.min + f + c.delay);
            info.switching_times.push(t);
            info.before_switching.push(b);
            info.after_switching.push(a);
            let x = symbolic.add_xor(time_name(node.name.as_str(), t), id, b, a);
            assert(x == SymbolicNodeId((prev.nodes.len() + 2) as usize));
            assert(symbolic.primary_outputs@ == prev.outputs.push(x));
            old_to_gate = copy_ids(&new_to_gate);
            assert(info.switching_times@ =~= prev.rec.times.push(t));
            assert(info.before_switching@ =~= prev.rec.before.push(b));
            assert(info.after_switching@ =~= prev.rec.after.push(a));
            let ghost fsw = frame_switch(c, prev, f as int);
            assert(fsw.rec =~= delay_view(info));
            assert(fsw.old == old_to_gate@);
            assert(fsw.new == new_to_gate@);
            assert(fsw.outputs == symbolic.primary_outputs@);
            assert(fsw.nodes == sym_nodes_view(symbolic.nodes@));
        } else {
            assert(frame_switch(c, prev, f as int) == prev);
        }
        assert(frame_view(*symbolic, info, old_to_gate@, new_to_gate@) =~= frame_switch(c, prev, f as int));
        if f + 1 < count {
            let t_next: i32 = min + (f + 1) as i32;
            advance_to(records, &node.fanins, t_next, &mut new_to_gate, Ghost(c), Ghost(f as int + 1));
        }
        assert(frame_view(*symbolic, info, old_to_gate@, new_to_gate@) =~= frame_step(c, prev, f as int, cnt));
        f = f + 1;
    }
    let ghost fs = frames_run(c, fs0, cnt, cnt as nat);
    proof {
        lemma_frames(c, fs0, cnt, cnt as nat);
        let g0 = c.recs[0].times[0] - c.min;
        assert(c.recs[0].times[0] == c.min + g0);
        assert(position(c.recs[0].times, c.min + g0) == Some(0int));
        assert(switched(c, g0, 0));
        assert(any_switched(c, g0));
        assert(0 <= g0 < cnt);
        assert(switching_wf(fs.rec));
    }
    records.set(id.0, Some(info));
    assert(records_view(records@) =~= st.records.update(id.0 as int, Some(fs.rec)));
}


/// Simulates a primary input.
fn handle_input(symbolic: &mut SymbolicPowerNetwork, records: &mut Vec<Option<DelayInfo>>, node: &PowerNode, id: NodeId, latest: i32)
    requires
        id.0 < old(records)@.len(),
        records_wf(records_view(old(records)@)),
    ensures
        state_of(*final(symbolic), final(records)@, latest) == input_step(state_of(*old(symbolic), old(records)@, latest), node.name@, id),
        final(symbolic).name == old(symbolic).name,
        final(records)@.len() == old(records)@.len(),
        records_wf(records_view(final(records)@)),
{
    let ghost st = state_of(*symbolic, records@, latest);
    let before = symbolic.add_snapshot(name_with(node.name.as_str(), "_000"), id, Vec::new());
    let after = symbolic.add_snapshot(name_with(node.name.as_str(), "_ttt"), id, Vec::new());
    let x = symbolic.add_xor(name_with(node.name.as_str(), "_xor_0"), id, before, after);
    let mut info = DelayInfo { before_switching: Vec::new(), after_switching: Vec::new(), switching_times: Vec::new() };
    info.switching_times.push(0);
    info.before_switching.push(before);
    info.after_switching.push(after);
    let ghost rec = Switching { times: seq![0i32], before: seq![before], after: seq![after] };
    assert(delay_view(info) =~= rec);
    records.set(id.0, Some(info));
    assert(records_view(records@) =~= st.records.update(id.0 as int, Some(rec)));
    assert(sym_nodes_view(symbolic.nodes@).len() == symbolic.nodes@.len());
    assert(x == SymbolicNodeId((st.nodes.len() + 2) as usize));
}

/// Simulates a gate without fanins.
fn handle_source(symbolic: &mut SymbolicPowerNetwork, records: &mut Vec<Option<DelayInfo>>, node: &PowerNode, id: NodeId, latest: i32)
    requires
        id.0 < old(records)@.len(),
        records_wf(records_view(old(records)@)),
    ensures
        state_of(*final(symbolic), final(records)@, latest) == source_step(state_of(*old(symbolic), old(records)@, latest), node.name@, id),
        final(symbolic).name == old(symbolic).name,
        final(records)@.len() == old(records)@.len(),
        records_wf(records_view(final(records)@)),
{
    let ghost st = state_of(*symbolic, records@, latest);
    let name = node.name.clone();
    let snap = symbolic.add_snapshot(name, id, Vec::new());
    let mut info = DelayInfo { before_switching: Vec::new(), after_switching: Vec::new(), switching_times: Vec::new() };
    info.switching_times.push(0);
    info.before_switching.push(snap);
    info.after_switching.push(snap);
    let ghost rec = Switching { times: seq![0i32], before: seq![snap], after: seq![snap] };
    assert(delay_view(info) =~= rec);
    records.set(id.0, Some(info));
    assert(records_view(records@) =~= st.records.update(id.0 as int, Some(rec)));
}

proof fn lemma_run_error_stays(nodes: Seq<PowerNode>, order: Seq<NodeId>, info: Seq<(NodeId, NodeInfo)>, k: nat, m: nat, e: PowerSimError)
    requires
        k <= m,
        sim_run(nodes, order, info, k) == Err::<SimState, PowerSimError>(e),
    ensures
        sim_run(nodes, order, info, m) == Err::<SimState, PowerSimError>(e),
    decreases m - k,
{
    if k < m {
        lemma_run_error_stays(nodes, order, info, k, (m - 1) as nat, e);
    }
}

proof fn lemma_fits_prefix(nodes: Seq<PowerNode>, order: Seq<NodeId>, info: Seq<(NodeId, NodeInfo)>, k: nat, m: nat)
    requires
        k <= m,
        run_fits(nodes, order, info, m),
    ensures
        run_fits(nodes, order, info, k),
    decreases m - k,
{
    if k < m {
        lemma_fits_prefix(nodes, order, info, k, (m - 1) as nat);
    }
}

/// Builds the symbolic network of `network`, with gate delays of
/// `info_table`.
///
/// The nodes are handled in the network's order. A primary input gets
/// snapshots before and after a transition at time 0 and a detector of it;
/// a primary output is skipped; a gate without fanins gets one snapshot
/// that never switches; another gate switches, `delay` after its fanins,
/// in each frame from its earliest to its latest fanin transition in which
/// some fanin switches. The latest such time, or 0 where there is none, is
/// the network's maximal delay.
pub fn power_symbolic_simulate(network: &PowerNetwork, info_table: &NodeInfoTable) -> (r: Result<SymbolicPowerNetwork, PowerSimError>)
    requires
        run_fits(network.nodes_view(), network.order_view(), info_table.entries_view(), network.order_view().len()),
    ensures
        match sim_run(network.nodes_view(), network.order_view(), info_table.entries_view(), network.order_view().len()) {
            Ok(st) => r matches Ok(s) && {
                &&& s.name_view() == network.name_view() + "_symbolic"@
                &&& s.nodes_view() == st.nodes
                &&& s.outputs_view() == st.outputs
                &&& s.delay_view() as int == if st.latest == i32::MIN { 0 } else { st.latest }
            },
            Err(e) => r == Err::<SymbolicPowerNetwork, PowerSimError>(e),
        },
{
    let ghost nodes = network.nodes_view();
    let ghost order = network.order_view();
    let ghost info = info_table.entries_view();
    let mut symbolic = SymbolicPowerNetwork::empty(name_with(network.name(), "_symbolic"));
    let mut records: Vec<Option<DelayInfo>> = Vec::new();
    let n = network.nodes.len();
    for i in 0..n
        invariant
            records@.len() == i,
            forall|k: int| 0 <= k < i ==> (#[trigger] records@[k]) is None,
    {
        records.push(None);
    }
    let mut latest: i32 = i32::MIN;
    assert(records_view(records@) =~= initial_state(nodes.len()).records);
    assert(state_of(symbolic, records@, latest) =~= initial_state(nodes.len()));
    let len = network.dfs_order.len();
    for k in 0..len
        invariant
            nodes == network.nodes@,
            order == network.dfs_order@,
            info == info_table.entries@,
            len == order.len(),
            records@.len() == nodes.len(),
            records_wf(records_view(records@)),
            symbolic.name@ == network.name@ + "_symbolic"@,
            sim_run(nodes, order, info, k as nat) == Ok::<SimState, PowerSimError>(state_of(symbolic, records@, latest)),
            run_fits(nodes, order, info, len as nat),
    {
        proof {
            lemma_fits_prefix(nodes, order, info, (k + 1) as nat, len as nat);
        }
        let ghost st = state_of(symbolic, records@, latest);
        let id = network.dfs_order[k];
        let node = match network.node(id) {
            Ok(node) => node,
            Err(e) => {
                proof {
                    lemma_run_error_stays(nodes, order, info, (k + 1) as nat, len as nat, e);
                }
                return Err(e);
            },
        };
        match node.kind {
            PowerNodeKind::PrimaryInput => {
                handle_input(&mut symbolic, &mut records, node, id, latest);
            },
            PowerNodeKind::PrimaryOutput => {},
            PowerNodeKind::Internal => {
                if node.fanins.len() == 0 {
                    handle_source(&mut symbolic, &mut records, node, id, latest);
                } else {
                    let delay = match info_table.get(id) {
                        Some(ni) => ni.delay,
                        None => {
                            let e = PowerSimError::MissingNodeInfo { node: id };
                            proof {
                                lemma_run_error_stays(nodes, order, info, (k + 1) as nat, len as nat, e);
                            }
                            return Err(e);
                        },
                    };
                    match find_missing(&records, &node.fanins) {
                        Some(f) => {
                            let e = PowerSimError::MissingFaninDelayInfo { node: id, fanin: f };
                            proof {
                                lemma_run_error_stays(nodes, order, info, (k + 1) as nat, len as nat, e);
                            }
                            return Err(e);
                        },
                        None => {},
                    }
                    handle_gate(&mut symbolic, &mut records, node, id, delay, &mut latest);
                }
            },
        }
    }
    symbolic.max_normalized_delay = if latest == i32::MIN { 0 } else { latest };
    Ok(symbolic)
}


/// Simulation of a native network: not available.
pub fn power_symbolic_simulate_from_sis_network<Network, InfoTable>(
    _network: &Network,
    _info_table: &InfoTable,
) -> (r: Result<SymbolicPowerNetwork, PowerSimError>)
    ensures
        r == Err::<SymbolicPowerNetwork, PowerSimError>(PowerSimError::MissingNativeSupport { operation: "power_symbolic_simulate" }),
{
    Err(PowerSimError::MissingNativeSupport { operation: "power_symbolic_simulate" })
}

pub open spec fn node_id_text(id: NodeId) -> Seq<char> {
    "NodeId("@ + decimal(id.0 as nat) + ")"@
}

pub open spec fn symbolic_id_text(id: SymbolicNodeId) -> Seq<char> {
    "SymbolicNodeId("@ + decimal(id.0 as nat) + ")"@
}

/// The message of an error.
pub open spec fn error_text(e: PowerSimError) -> Seq<char> {
    match e {
        PowerSimError::UnknownNode(node) => "unknown power-sim node "@ + node_id_text(node),
        PowerSimError::UnknownSymbolicNode(node) => "unknown symbolic power-sim node "@ + symbolic_id_text(node),
        PowerSimError::MissingNodeInfo { node } => "node "@ + node_id_text(node) + " is missing power node_info_t delay data from the SIS info table"@,
        PowerSimError::MissingFaninDelayInfo { node, fanin } => "node "@ + node_id_text(node) + " depends on fanin "@
            + node_id_text(fanin) + ", but no symbolic delay_info_t exists for it"@,
        PowerSimError::MissingNativeSupport { operation } => "operation "@ + debug_text(operation@)
            + " requires native network support"@,
    }
}

fn push_node_id(s: &mut String, id: NodeId)
    ensures
        final(s)@ == old(s)@ + node_id_text(id),
{
    push_str(s, "NodeId(");
    push_decimal(s, id.0 as u64);
    push_str(s, ")");
    assert(final(s)@ =~= old(s)@ + node_id_text(id));
}

impl PowerSimError {
    /// The message describing the error.
    pub fn message(&self) -> (r: String)
        ensures
            r@ == error_text(*self),
    {
        let mut s = String::new();
        match self {
            PowerSimError::UnknownNode(node) => {
                push_str(&mut s, "unknown power-sim node ");
                push_node_id(&mut s, *node);
            },
            PowerSimError::UnknownSymbolicNode(node) => {
                push_str(&mut s, "unknown symbolic power-sim node ");
                push_str(&mut s, "SymbolicNodeId(");
                push_decimal(&mut s, node.0 as u64);
                push_str(&mut s, ")");
            },
            PowerSimError::MissingNodeInfo { node } => {
                push_str(&mut s, "node ");
                push_node_id(&mut s, *node);
                push_str(&mut s, " is missing power node_info_t delay data from the SIS info table");
            },
            PowerSimError::MissingFaninDelayInfo { node, fanin } => {
                push_str(&mut s, "node ");
                push_node_id(&mut s, *node);
                push_str(&mut s, " depends on fanin ");
                push_node_id(&mut s, *fanin);
                push_str(&mut s, ", but no symbolic delay_info_t exists for it");
            },
            PowerSimError::MissingNativeSupport { operation } => {
                push_str(&mut s, "operation ");
                let q = debug_quoted(operation);
                push_str(&mut s, q.as_str());
                push_str(&mut s, " requires native network support");
            },
        }
        assert(s@ =~= error_text(*self));
        s
    }
}

} // verus!
