//! The retiming graph's integer logic: moving registers across a node by
//! adjusting the weights of its incident edges, and the legality check of
//! a graph. Delays, areas and edge breadths are kept by the caller.

use vstd::prelude::*;

verus! {

#[derive(Clone, Copy, Debug, Eq, PartialEq, Structural)]
pub enum RetimeNodeType {
    PrimaryInput,
    PrimaryOutput,
    Internal,
    Ignore,
}

/// A node of the retiming graph: its kind and the ids of its incoming and
/// outgoing edges.
#[derive(Clone, Debug, PartialEq)]
pub struct RetimeNode {
    pub id: usize,
    pub node_type: RetimeNodeType,
    pub fanins: Vec<usize>,
    pub fanouts: Vec<usize>,
}

/// An edge: its ends, the fanin slot it feeds, its register count
/// (`weight`), and the register values it carries when known.
#[derive(Clone, Debug, PartialEq)]
pub struct RetimeEdge {
    pub id: usize,
    pub source: usize,
    pub sink: usize,
    pub sink_fanin_id: usize,
    pub weight: i32,
    pub latches_present: bool,
    pub initial_values: Vec<i32>,
}

#[derive(Clone, Debug, PartialEq)]
pub struct RetimeGraph {
    pub nodes: Vec<RetimeNode>,
    pub edges: Vec<RetimeEdge>,
    pub primary_inputs: Vec<usize>,
    pub primary_outputs: Vec<usize>,
}

#[derive(Clone, Copy, Debug, Eq, PartialEq, Structural)]
pub enum RetimeUtilError {
    MissingNode { node_id: usize },
    MissingEdge { edge_id: usize },
    CannotRetimeNonInternal { node_id: usize, node_type: RetimeNodeType },
    PrimaryInputHasFanins { node_id: usize },
    PrimaryOutputHasFanouts { node_id: usize },
    NegativeEdgeWeight { edge_id: usize, weight: i32 },
    ZeroWeightCycle { node_id: usize, weight: i32 },
}

/// What an edge holds, with its register values as a sequence.
pub struct EdgeView {
    pub id: usize,
    pub source: usize,
    pub sink: usize,
    pub sink_fanin_id: usize,
    pub weight: int,
    pub latches_present: bool,
    pub initial_values: Seq<i32>,
}

pub open spec fn edge_view(e: RetimeEdge) -> EdgeView {
    EdgeView {
        id: e.id,
        source: e.source,
        sink: e.sink,
        sink_fanin_id: e.sink_fanin_id,
        weight: e.weight as int,
        latches_present: e.latches_present,
        initial_values: e.initial_values@,
    }
}

pub open spec fn edges_view(es: Seq<RetimeEdge>) -> Seq<EdgeView> {
    Seq::new(es.len(), |i: int| edge_view(es[i]))
}

/// Every edge joins two nodes of the graph.
pub open spec fn ends_in_range(g: RetimeGraph) -> bool {
    forall|e: int| 0 <= e < g.edges@.len() ==> (#[trigger] g.edges@[e]).source < g.nodes@.len()
        && g.edges@[e].sink < g.nodes@.len()
}

/// Whether an edge touches a node of kind `Ignore`.
pub open spec fn ignored(nodes: Seq<RetimeNode>, e: EdgeView) -> bool {
    nodes[e.source as int].node_type == RetimeNodeType::Ignore || nodes[e.sink as int].node_type == RetimeNodeType::Ignore
}

/// Moves `delta` registers onto each edge of `ids` in turn that touches no
/// ignored node, clearing its register values when `clear`; stops at the
/// first id that names no edge, which it gives back.
pub open spec fn adjust_run(nodes: Seq<RetimeNode>, es: Seq<EdgeView>, ids: Seq<usize>, delta: int, clear: bool)
    -> (Seq<EdgeView>, Option<usize>)
    decreases ids.len(),
{
    if ids.len() == 0 {
        (es, None)
    } else {
        let e = ids[0];
        if e >= es.len() {
            (es, Some(e))
        } else if ignored(nodes, es[e as int]) {
            adjust_run(nodes, es, ids.drop_first(), delta, clear)
        } else {
            let old = es[e as int];
            let new = if clear {
                EdgeView { weight: old.weight + delta, latches_present: false, initial_values: Seq::empty(), ..old }
            } else {
                EdgeView { weight: old.weight + delta, ..old }
            };
            adjust_run(nodes, es.update(e as int, new), ids.drop_first(), delta, clear)
        }
    }
}

/// Every weight that [`adjust_run`] computes fits in `i32`.
pub open spec fn adjust_fits(nodes: Seq<RetimeNode>, es: Seq<EdgeView>, ids: Seq<usize>, delta: int, clear: bool) -> bool
    decreases ids.len(),
{
    if ids.len() == 0 {
        true
    } else {
        let e = ids[0];
        if e >= es.len() {
            true
        } else if ignored(nodes, es[e as int]) {
            adjust_fits(nodes, es, ids.drop_first(), delta, clear)
        } else {
            let old = es[e as int];
            let w = old.weight + delta;
            let new = if clear {
                EdgeView { weight: w, latches_present: false, initial_values: Seq::empty(), ..old }
            } else {
                EdgeView { weight: w, ..old }
            };
            i32::MIN <= w <= i32::MAX && adjust_fits(nodes, es.update(e as int, new), ids.drop_first(), delta, clear)
        }
    }
}

/// Two adjustment passes, the second from where the first left off unless
/// it stopped at a missing edge.
pub open spec fn two_passes(nodes: Seq<RetimeNode>, es: Seq<EdgeView>, first: Seq<usize>, d1: int, second: Seq<usize>, d2: int, clear: bool)
    -> (Seq<EdgeView>, Option<usize>)
{
    let p = adjust_run(nodes, es, first, d1, clear);
    if p.1 is Some {
        p
    } else {
        adjust_run(nodes, p.0, second, d2, clear)
    }
}

pub open spec fn two_passes_fit(nodes: Seq<RetimeNode>, es: Seq<EdgeView>, first: Seq<usize>, d1: int, second: Seq<usize>, d2: int, clear: bool) -> bool {
    &&& adjust_fits(nodes, es, first, d1, clear)
    &&& adjust_run(nodes, es, first, d1, clear).1 is None ==> adjust_fits(
        nodes,
        adjust_run(nodes, es, first, d1, clear).0,
        second,
        d2,
        clear,
    )
}

impl RetimeGraph {
    fn edge_ignored(&self, edge_id: usize) -> (r: Result<bool, RetimeUtilError>)
        requires
            ends_in_range(*self),
        ensures
            edge_id < self.edges@.len() ==> r == Ok::<bool, RetimeUtilError>(
                ignored(self.nodes@, edge_view(self.edges@[edge_id as int]))),
            edge_id >= self.edges@.len() ==> r == Err::<bool, RetimeUtilError>(RetimeUtilError::MissingEdge { edge_id }),
    {
        if edge_id >= self.edges.len() {
            return Err(RetimeUtilError::MissingEdge { edge_id });
        }
        let e = &self.edges[edge_id];
        Ok(self.nodes[e.source].node_type == RetimeNodeType::Ignore || self.nodes[e.sink].node_type == RetimeNodeType::Ignore)
    }

    /// Moves `delta` registers onto the listed edges (see [`adjust_run`]).
    fn adjust(&mut self, ids: &Vec<usize>, delta: i64, clear: bool) -> (r: Result<(), RetimeUtilError>)
        requires
            ends_in_range(*old(self)),
            -0x1_0000_0000 <= delta <= 0x1_0000_0000,
            adjust_fits(old(self).nodes@, edges_view(old(self).edges@), ids@, delta as int, clear),
        ensures
            final(self).nodes == old(self).nodes,
            final(self).primary_inputs == old(self).primary_inputs,
            final(self).primary_outputs == old(self).primary_outputs,
            final(self).edges@.len() == old(self).edges@.len(),
            ends_in_range(*final(self)),
            ({
                let run = adjust_run(old(self).nodes@, edges_view(old(self).edges@), ids@, delta as int, clear);
                &&& edges_view(final(self).edges@) == run.0
                &&& match run.1 {
                    Some(e) => r == Err::<(), RetimeUtilError>(RetimeUtilError::MissingEdge { edge_id: e }),
                    None => r is Ok,
                }
            }),
    {
        let ghost nodes = self.nodes@;
        let ghost total = adjust_run(nodes, edges_view(self.edges@), ids@, delta as int, clear);
        let mut k: usize = 0;
        assert(ids@.skip(0) =~= ids@);
        assert(total == adjust_run(old(self).nodes@, edges_view(old(self).edges@), ids@, delta as int, clear));
        while k < ids.len()
            invariant
                k <= ids@.len(),
                self.nodes@ == nodes,
                self.nodes == old(self).nodes,
                self.primary_inputs == old(self).primary_inputs,
                self.primary_outputs == old(self).primary_outputs,
                self.edges@.len() == old(self).edges@.len(),
                total == adjust_run(old(self).nodes@, edges_view(old(self).edges@), ids@, delta as int, clear),
                ends_in_range(*self),
                -0x1_0000_0000 <= delta <= 0x1_0000_0000,
                adjust_run(nodes, edges_view(self.edges@), ids@.skip(k as int), delta as int, clear) == total,
                adjust_fits(nodes, edges_view(self.edges@), ids@.skip(k as int), delta as int, clear),
            decreases ids@.len() - k,
        {
            let e = ids[k];
            let ghost es = edges_view(self.edges@);
            assert(ids@.skip(k as int)[0] == e);
            assert(ids@.skip(k as int).drop_first() =~= ids@.skip(k + 1));
            assert(es.len() == self.edges@.len());
            let ign = match self.edge_ignored(e) {
                Ok(b) => b,
                Err(err) => {
                    assert(adjust_run(nodes, es, ids@.skip(k as int), delta as int, clear) == (es, Some(e)));
                    return Err(err);
                },
            };
            assert(es[e as int] == edge_view(self.edges@[e as int]));
            if !ign {
                assert(i32::MIN <= es[e as int].weight + delta <= i32::MAX);
                let w = (self.edges[e].weight as i64 + delta) as i32;
                self.edges[e].weight = w;
                if clear {
                    self.edges[e].latches_present = false;
                    self.edges[e].initial_values = Vec::new();
                }
                proof {
                    let old_e = es[e as int];
                    let new = if clear {
                        EdgeView { weight: old_e.weight + delta, latches_present: false, initial_values: Seq::empty(), ..old_e }
                    } else {
                        EdgeView { weight: old_e.weight + delta, ..old_e }
                    };
                    assert(edges_view(self.edges@) =~= es.update(e as int, new));
                }
            }
            k = k + 1;
        }
        assert(ids@.skip(k as int).len() == 0);
        Ok(())
    }

    fn require_node(&self, node_id: usize) -> (r: Result<(), RetimeUtilError>)
        ensures
            node_id < self.nodes@.len() <==> r is Ok,
            node_id >= self.nodes@.len() ==> r == Err::<(), RetimeUtilError>(RetimeUtilError::MissingNode { node_id }),
    {
        if node_id < self.nodes.len() {
            Ok(())
        } else {
            Err(RetimeUtilError::MissingNode { node_id })
        }
    }

    /// Moves `retime_amount` registers from the outputs of an internal node
    /// to its inputs: each of its fanin edges, then each of its fanout
    /// edges, touching no ignored node, gains (fanins) or loses (fanouts)
    /// that many; stops at the first edge id that names no edge.
    pub fn retime_node(&mut self, node_id: usize, retime_amount: i32) -> (r: Result<(), RetimeUtilError>)
        requires
            ends_in_range(*old(self)),
            node_id < old(self).nodes@.len() ==> two_passes_fit(old(self).nodes@, edges_view(old(self).edges@),
                old(self).nodes@[node_id as int].fanins@, retime_amount as int,
                old(self).nodes@[node_id as int].fanouts@, -retime_amount, false),
        ensures
            final(self).nodes == old(self).nodes,
            final(self).primary_inputs == old(self).primary_inputs,
            final(self).primary_outputs == old(self).primary_outputs,
            final(self).edges@.len() == old(self).edges@.len(),
            node_id >= old(self).nodes@.len() ==> r == Err::<(), RetimeUtilError>(RetimeUtilError::MissingNode { node_id })
                && final(self).edges == old(self).edges,
            node_id < old(self).nodes@.len() && old(self).nodes@[node_id as int].node_type != RetimeNodeType::Internal
                ==> r == Err::<(), RetimeUtilError>(RetimeUtilError::CannotRetimeNonInternal {
                    node_id,
                    node_type: old(self).nodes@[node_id as int].node_type,
                }) && final(self).edges == old(self).edges,
            node_id < old(self).nodes@.len() && old(self).nodes@[node_id as int].node_type == RetimeNodeType::Internal ==> {
                let run = two_passes(old(self).nodes@, edges_view(old(self).edges@),
                    old(self).nodes@[node_id as int].fanins@, retime_amount as int,
                    old(self).nodes@[node_id as int].fanouts@, -retime_amount, false);
                &&& edges_view(final(self).edges@) == run.0
                &&& match run.1 {
                    Some(e) => r == Err::<(), RetimeUtilError>(RetimeUtilError::MissingEdge { edge_id: e }),
                    None => r is Ok,
                }
            },
    {
        if let Err(e) = self.require_node(node_id) {
            return Err(e);
        }
        let node_type = self.nodes[node_id].node_type;
        if node_type != RetimeNodeType::Internal {
            return Err(RetimeUtilError::CannotRetimeNonInternal { node_id, node_type });
        }
        let fanins = self.nodes[node_id].fanins.clone();
        let fanouts = self.nodes[node_id].fanouts.clone();
        assert(fanins@ == old(self).nodes@[node_id as int].fanins@);
        assert(fanouts@ == old(self).nodes@[node_id as int].fanouts@);
        if let Err(e) = self.adjust(&fanins, retime_amount as i64, false) {
            return Err(e);
        }
        self.adjust(&fanouts, -(retime_amount as i64), false)
    }

    /// Joins `source` to `sink`: an edge of the source's fanouts with the
    /// same sink, weight and fanin slot is reused (the first such);
    /// otherwise a new edge without register values is added and listed
    /// among the source's fanouts and the sink's fanins.
    pub fn add_edge(&mut self, source: usize, sink: usize, weight: i32, sink_fanin_id: usize) -> (r: Result<usize, RetimeUtilError>)
        requires
            ends_in_range(*old(self)),
            source < old(self).nodes@.len() ==> forall|j: int| 0 <= j < old(self).nodes@[source as int].fanouts@.len()
                ==> #[trigger] old(self).nodes@[source as int].fanouts@[j] < old(self).edges@.len(),
            old(self).edges@.len() < usize::MAX,
        ensures
            ends_in_range(*final(self)),
            final(self).primary_inputs == old(self).primary_inputs,
            final(self).primary_outputs == old(self).primary_outputs,
            source >= old(self).nodes@.len() ==> r == Err::<usize, RetimeUtilError>(RetimeUtilError::MissingNode { node_id: source })
                && *final(self) == *old(self),
            source < old(self).nodes@.len() && sink >= old(self).nodes@.len() ==> r == Err::<usize, RetimeUtilError>(
                RetimeUtilError::MissingNode { node_id: sink }) && *final(self) == *old(self),
            source < old(self).nodes@.len() && sink < old(self).nodes@.len() ==> {
                let outs = old(self).nodes@[source as int].fanouts@;
                let es = edges_view(old(self).edges@);
                match first_match(es, outs, sink, weight as int, sink_fanin_id) {
                    Some(j) => r == Ok::<usize, RetimeUtilError>(outs[j as int]) && *final(self) == *old(self),
                    None => {
                        let id = old(self).edges@.len();
                        &&& r == Ok::<usize, RetimeUtilError>(id as usize)
                        &&& edges_view(final(self).edges@) == es.push(EdgeView {
                            id: id as usize,
                            source,
                            sink,
                            sink_fanin_id,
                            weight: weight as int,
                            latches_present: false,
                            initial_values: Seq::empty(),
                        })
                        &&& final(self).nodes@.len() == old(self).nodes@.len()
                        &&& forall|i: int| 0 <= i < final(self).nodes@.len() ==> {
                            let a = #[trigger] final(self).nodes@[i];
                            let b = old(self).nodes@[i];
                            &&& a.id == b.id
                            &&& a.node_type == b.node_type
                            &&& a.fanouts@ == if i == source { b.fanouts@.push(id as usize) } else { b.fanouts@ }
                            &&& a.fanins@ == if i == sink { b.fanins@.push(id as usize) } else { b.fanins@ }
                        }
                    },
                }
            },
    {
        if source >= self.nodes.len() {
            return Err(RetimeUtilError::MissingNode { node_id: source });
        }
        if sink >= self.nodes.len() {
            return Err(RetimeUtilError::MissingNode { node_id: sink });
        }
        let ghost es = edges_view(self.edges@);
        let ghost outs = self.nodes@[source as int].fanouts@;
        let nf = self.nodes[source].fanouts.len();
        for j in 0..nf
            invariant
                *self == *old(self),
                ends_in_range(*self),
                nf == outs.len(),
                source < self.nodes@.len(),
                outs == self.nodes@[source as int].fanouts@,
                es == edges_view(self.edges@),
                forall|t: int| 0 <= t < outs.len() ==> #[trigger] outs[t] < es.len(),
                forall|t: int| 0 <= t < j ==> !#[trigger] edge_matches(es[outs[t] as int], sink, weight as int, sink_fanin_id),
        {
            let e = self.nodes[source].fanouts[j];
            assert(es[e as int] == edge_view(self.edges@[e as int]));
            let edge = &self.edges[e];
            if edge.sink == sink && edge.weight == weight && edge.sink_fanin_id == sink_fanin_id {
                proof {
                    lemma_first_match(es, outs, sink, weight as int, sink_fanin_id, j as int);
                }
                return Ok(e);
            }
        }
        proof {
            lemma_no_match(es, outs, sink, weight as int, sink_fanin_id);
        }
        let id = self.edges.len();
        self.edges.push(RetimeEdge {
            id,
            source,
            sink,
            sink_fanin_id,
            weight,
            latches_present: false,
            initial_values: Vec::new(),
        });
        let ghost nodes0 = self.nodes@;
        self.nodes[source].fanouts.push(id);
        self.nodes[sink].fanins.push(id);
        assert(edges_view(self.edges@) =~= es.push(EdgeView {
            id,
            source,
            sink,
            sink_fanin_id,
            weight: weight as int,
            latches_present: false,
            initial_values: Seq::empty(),
        }));
        Ok(id)
    }

    /// The nodes reached from the primary outputs through fanins, each
    /// after what it reaches (see [`dfs_roots`]); a zero-weight cycle is an
    /// error.
    pub fn dfs_from_outputs(&self) -> (r: Result<Vec<usize>, RetimeUtilError>)
        requires
            ends_in_range(*self),
            dfs_roots(self.nodes@, edges_view(self.edges@), self.primary_outputs@, 0, true, Seq::empty()) != Err::<
                Seq<usize>,
                Option<RetimeUtilError>,
            >(None),
        ensures
            match dfs_roots(self.nodes@, edges_view(self.edges@), self.primary_outputs@, 0, true, Seq::empty()) {
                Ok(o) => r matches Ok(v) && v@ == o,
                Err(x) => r matches Err(e) && x == Some(e),
            },
    {
        self.dfs_from_roots(&self.primary_outputs, true)
    }

    /// The nodes reached from the primary inputs through fanouts, each
    /// after what it reaches (see [`dfs_roots`]).
    pub fn dfs_from_inputs(&self) -> (r: Result<Vec<usize>, RetimeUtilError>)
        requires
            ends_in_range(*self),
            dfs_roots(self.nodes@, edges_view(self.edges@), self.primary_inputs@, 0, false, Seq::empty()) != Err::<
                Seq<usize>,
                Option<RetimeUtilError>,
            >(None),
        ensures
            match dfs_roots(self.nodes@, edges_view(self.edges@), self.primary_inputs@, 0, false, Seq::empty()) {
                Ok(o) => r matches Ok(v) && v@ == o,
                Err(x) => r matches Err(e) && x == Some(e),
            },
    {
        self.dfs_from_roots(&self.primary_inputs, false)
    }

    fn dfs_from_roots(&self, roots: &Vec<usize>, visit_inputs: bool) -> (r: Result<Vec<usize>, RetimeUtilError>)
        requires
            ends_in_range(*self),
            dfs_roots(self.nodes@, edges_view(self.edges@), roots@, 0, visit_inputs, Seq::empty()) != Err::<
                Seq<usize>,
                Option<RetimeUtilError>,
            >(None),
        ensures
            match dfs_roots(self.nodes@, edges_view(self.edges@), roots@, 0, visit_inputs, Seq::empty()) {
                Ok(o) => r matches Ok(v) && v@ == o,
                Err(x) => r matches Err(e) && x == Some(e),
            },
    {
        let ghost es = edges_view(self.edges@);
        let ghost total = dfs_roots(self.nodes@, es, roots@, 0, visit_inputs, Seq::empty());
        let n = self.nodes.len();
        let mut visited: Vec<Option<i32>> = Vec::new();
        for i in 0..n
            invariant
                visited@.len() == i,
                forall|v: int| 0 <= v < i ==> visited@[v] is None,
        {
            visited.push(None);
        }
        let mut out: Vec<usize> = Vec::new();
        for k in 0..roots.len()
            invariant
                es == edges_view(self.edges@),
                ends_in_range(*self),
                n == self.nodes@.len(),
                visited@.len() == n,
                forall|v: int| 0 <= v < n ==> visited@[v] is None,
                dfs_roots(self.nodes@, es, roots@, k as nat, visit_inputs, out@) == total,
                total == dfs_roots(self.nodes@, es, roots@, 0, visit_inputs, Seq::empty()),
                total != Err::<Seq<usize>, Option<RetimeUtilError>>(None),
        {
            assert(path_matches(visited@, Map::empty()));
            let ghost o0 = out@;
            let res = self.dfs_recur(roots[k], &mut out, &mut visited, visit_inputs, usize::MAX, 0, Ghost(Map::empty()));
            if let Err(e) = res {
                assert(dfs_node(self.nodes@, es, roots@[k as int], Map::empty(), visit_inputs, usize::MAX as nat, 0, o0) == Err::<Seq<usize>, Option<RetimeUtilError>>(Some(e)));
                return Err(e);
            }
            assert forall|v: int| 0 <= v < n implies visited@[v] is None by {
                assert(!Map::<usize, int>::empty().contains_key(v as usize));
            }
        }
        Ok(out)
    }

    fn dfs_recur(
        &self,
        node: usize,
        out: &mut Vec<usize>,
        visited: &mut Vec<Option<i32>>,
        visit_inputs: bool,
        level: usize,
        weight: i32,
        Ghost(path): Ghost<DfsPath>,
    ) -> (r: Result<(), RetimeUtilError>)
        requires
            ends_in_range(*self),
            old(visited)@.len() == self.nodes@.len(),
            path_matches(old(visited)@, path),
            dfs_node(self.nodes@, edges_view(self.edges@), node, path, visit_inputs, level as nat, weight as int, old(out)@)
                != Err::<Seq<usize>, Option<RetimeUtilError>>(None),
        ensures
            final(visited)@.len() == old(visited)@.len(),
            match dfs_node(self.nodes@, edges_view(self.edges@), node, path, visit_inputs, level as nat, weight as int, old(out)@) {
                Ok(o) => r is Ok && final(out)@ == o && final(visited)@ == old(visited)@,
                Err(x) => r matches Err(e) && x == Some(e),
            },
        decreases level,
    {
        let ghost es = edges_view(self.edges@);
        let ghost out0 = out@;
        if node >= self.nodes.len() {
            return Err(RetimeUtilError::MissingNode { node_id: node });
        }
        if level == 0 {
            return Ok(());
        }
        if let Some(active) = visited[node] {
            assert(path.contains_key(node));
            if active == weight {
                return Err(RetimeUtilError::ZeroWeightCycle { node_id: node, weight });
            }
            return Ok(());
        }
        assert(!path.contains_key(node));
        let ghost path2 = path.insert(node, weight as int);
        let ghost visited0 = visited@;
        visited.set(node, Some(weight));
        assert(path_matches(visited@, path2));
        if level > 1 {
            let ids = if visit_inputs { self.nodes[node].fanins.clone() } else { self.nodes[node].fanouts.clone() };
            let ghost total = dfs_edges(self.nodes@, es, ids@, 0, path2, visit_inputs, (level - 1) as nat, weight as int, out0);
            for k in 0..ids.len()
                invariant
                    es == edges_view(self.edges@),
                    ends_in_range(*self),
                    level > 1,
                    visited@.len() == self.nodes@.len(),
                    path_matches(visited@, path2),
                    visited0 == old(visited)@,
                    node < self.nodes@.len(),
                    !path.contains_key(node),
                    path2 == path.insert(node, weight as int),
                    total == dfs_edges(self.nodes@, es, ids@, 0, path2, visit_inputs, (level - 1) as nat, weight as int, out0),
                    visited0.len() == self.nodes@.len(),
                    out0 == old(out)@,
                    ids@ == if visit_inputs { self.nodes@[node as int].fanins@ } else { self.nodes@[node as int].fanouts@ },
                    visited@ == visited0.update(node as int, Some(weight)),
                    dfs_edges(self.nodes@, es, ids@, k as nat, path2, visit_inputs, (level - 1) as nat, weight as int, out@) == total,
                    total != Err::<Seq<usize>, Option<RetimeUtilError>>(None),
            {
                let e = ids[k];
                assert(es.len() == self.edges@.len());
                let ign = match self.edge_ignored(e) {
                    Ok(b) => b,
                    Err(err) => {
                        assert(visited@.len() == old(visited)@.len());
                        assert(dfs_edges(self.nodes@, es, ids@, k as nat, path2, visit_inputs, (level - 1) as nat, weight as int, out@)
                            == Err::<Seq<usize>, Option<RetimeUtilError>>(Some(err)));
                        assert(dfs_node(self.nodes@, es, node, path, visit_inputs, level as nat, weight as int, out0)
                            == Err::<Seq<usize>, Option<RetimeUtilError>>(Some(err)));
                        return Err(err);
                    },
                };
                assert(es[e as int] == edge_view(self.edges@[e as int]));
                if !ign {
                    let edge = &self.edges[e];
                    let next = if visit_inputs { edge.source } else { edge.sink };
                    let w = weight as i64 + edge.weight as i64;
                    assert(i32::MIN <= w <= i32::MAX);
                    let res = self.dfs_recur(next, out, visited, visit_inputs, level - 1, w as i32, Ghost(path2));
                    if let Err(err) = res {
                        return Err(err);
                    }
                }
            }
        }
        visited.set(node, None);
        assert(visited@ =~= visited0);
        out.push(node);
        Ok(())
    }

    /// Moves `lag` registers from the outputs of a node to its inputs,
    /// dropping the register values of every edge it changes: each fanout
    /// edge touching no ignored node loses `lag` registers, then each such
    /// fanin edge gains them; stops at the first edge id that names no
    /// edge. A lag of 0 changes nothing.
    pub fn retime_single_node(&mut self, node_id: usize, lag: i32) -> (r: Result<(), RetimeUtilError>)
        requires
            ends_in_range(*old(self)),
            node_id < old(self).nodes@.len() && lag != 0 ==> two_passes_fit(old(self).nodes@, edges_view(old(self).edges@),
                old(self).nodes@[node_id as int].fanouts@, -lag, old(self).nodes@[node_id as int].fanins@, lag as int, true),
        ensures
            final(self).nodes == old(self).nodes,
            final(self).primary_inputs == old(self).primary_inputs,
            final(self).primary_outputs == old(self).primary_outputs,
            final(self).edges@.len() == old(self).edges@.len(),
            node_id >= old(self).nodes@.len() ==> r == Err::<(), RetimeUtilError>(RetimeUtilError::MissingNode { node_id })
                && final(self).edges == old(self).edges,
            node_id < old(self).nodes@.len() && lag == 0 ==> r is Ok && final(self).edges == old(self).edges,
            node_id < old(self).nodes@.len() && lag != 0 ==> {
                let run = two_passes(old(self).nodes@, edges_view(old(self).edges@),
                    old(self).nodes@[node_id as int].fanouts@, -lag, old(self).nodes@[node_id as int].fanins@, lag as int, true);
                &&& edges_view(final(self).edges@) == run.0
                &&& match run.1 {
                    Some(e) => r == Err::<(), RetimeUtilError>(RetimeUtilError::MissingEdge { edge_id: e }),
                    None => r is Ok,
                }
            },
    {
        if let Err(e) = self.require_node(node_id) {
            return Err(e);
        }
        if lag == 0 {
            return Ok(());
        }
        let fanouts = self.nodes[node_id].fanouts.clone();
        let fanins = self.nodes[node_id].fanins.clone();
        assert(fanins@ == old(self).nodes@[node_id as int].fanins@);
        assert(fanouts@ == old(self).nodes@[node_id as int].fanouts@);
        if let Err(e) = self.adjust(&fanouts, -(lag as i64), true) {
            return Err(e);
        }
        self.adjust(&fanins, lag as i64, true)
    }

    /// The legality check: the first node (in order) that is a primary input
    /// with fanins or a primary output with a fanout edge touching no
    /// ignored node, else the first edge of negative weight touching no
    /// ignored node (see [`graph_error`]).
    pub fn check_graph(&self) -> (r: Result<(), RetimeUtilError>)
        requires
            ends_in_range(*self),
        ensures
            match graph_error(self.nodes@, edges_view(self.edges@)) {
                Some(e) => r == Err::<(), RetimeUtilError>(e),
                None => r is Ok,
            },
    {
        let ghost es = edges_view(self.edges@);
        let n = self.nodes.len();
        for k in 0..n
            invariant
                n == self.nodes@.len(),
                es == edges_view(self.edges@),
                ends_in_range(*self),
                node_error(self.nodes@, es, k as nat) is None,
        {
            let node = &self.nodes[k];
            if node.node_type == RetimeNodeType::PrimaryInput && node.fanins.len() > 0 {
                proof {
                    lemma_node_error_stays(self.nodes@, es, (k + 1) as nat, n as nat);
                }
                return Err(RetimeUtilError::PrimaryInputHasFanins { node_id: node.id });
            }
            if node.node_type == RetimeNodeType::PrimaryOutput {
                let ghost ids = node.fanouts@;
                assert(ids.skip(0) =~= ids);
                for j in 0..node.fanouts.len()
                    invariant
                        ids == node.fanouts@,
                        k < n,
                        n == self.nodes@.len(),
                        *node == self.nodes@[k as int],
                        node.node_type == RetimeNodeType::PrimaryOutput,
                        node_error(self.nodes@, es, k as nat) is None,
                        es == edges_view(self.edges@),
                        ends_in_range(*self),
                        po_fanout_error(self.nodes@, es, node.id, ids) == po_fanout_error(self.nodes@, es, node.id, ids.skip(j as int)),
                {
                    let e = node.fanouts[j];
                    assert(ids.skip(j as int)[0] == e);
                    assert(ids.skip(j as int).drop_first() =~= ids.skip(j + 1));
                    assert(es.len() == self.edges@.len());
                    let ign = match self.edge_ignored(e) {
                        Ok(b) => b,
                        Err(err) => {
                            proof {
                                assert(po_fanout_error(self.nodes@, es, node.id, ids.skip(j as int))
                                    == Some(RetimeUtilError::MissingEdge { edge_id: e }));
                                assert(node_error(self.nodes@, es, (k + 1) as nat) == Some(RetimeUtilError::MissingEdge { edge_id: e }));
                                lemma_node_error_stays(self.nodes@, es, (k + 1) as nat, n as nat);
                            }
                            return Err(err);
                        },
                    };
                    assert(es[e as int] == edge_view(self.edges@[e as int]));
                    if !ign {
                        proof {
                            lemma_node_error_stays(self.nodes@, es, (k + 1) as nat, n as nat);
                        }
                        return Err(RetimeUtilError::PrimaryOutputHasFanouts { node_id: node.id });
                    }
                }
                assert(ids.skip(ids.len() as int).len() == 0);
            }
            assert(node_error(self.nodes@, es, (k + 1) as nat) is None);
        }
        let m = self.edges.len();
        for k in 0..m
            invariant
                m == self.edges@.len(),
                es == edges_view(self.edges@),
                ends_in_range(*self),
                node_error(self.nodes@, es, self.nodes@.len()) is None,
                edge_error(self.nodes@, es, k as nat) is None,
        {
            let id = self.edges[k].id;
            let weight = self.edges[k].weight;
            assert(es[k as int] == edge_view(self.edges@[k as int]));
            assert(es.len() == self.edges@.len());
            let ign = match self.edge_ignored(id) {
                Ok(b) => b,
                Err(err) => {
                    proof {
                        lemma_edge_error_stays(self.nodes@, es, (k + 1) as nat, m as nat);
                    }
                    return Err(err);
                },
            };
            assert(es[id as int] == edge_view(self.edges@[id as int]));
            if !ign && weight < 0 {
                proof {
                    lemma_edge_error_stays(self.nodes@, es, (k + 1) as nat, m as nat);
                }
                return Err(RetimeUtilError::NegativeEdgeWeight { edge_id: id, weight });
            }
        }
        Ok(())
    }
}

/// The first fanout edge of output `node_id` that names no edge or touches
/// no ignored node, as an error.
pub open spec fn po_fanout_error(nodes: Seq<RetimeNode>, es: Seq<EdgeView>, node_id: usize, ids: Seq<usize>) -> Option<RetimeUtilError>
    decreases ids.len(),
{
    if ids.len() == 0 {
        None
    } else if ids[0] >= es.len() {
        Some(RetimeUtilError::MissingEdge { edge_id: ids[0] })
    } else if !ignored(nodes, es[ids[0] as int]) {
        Some(RetimeUtilError::PrimaryOutputHasFanouts { node_id })
    } else {
        po_fanout_error(nodes, es, node_id, ids.drop_first())
    }
}

/// The first fault among the first `k` nodes.
pub open spec fn node_error(nodes: Seq<RetimeNode>, es: Seq<EdgeView>, k: nat) -> Option<RetimeUtilError>
    decreases k,
{
    if k == 0 {
        None
    } else {
        match node_error(nodes, es, (k - 1) as nat) {
            Some(e) => Some(e),
            None => {
                let node = nodes[k - 1];
                if node.node_type == RetimeNodeType::PrimaryInput && node.fanins@.len() > 0 {
                    Some(RetimeUtilError::PrimaryInputHasFanins { node_id: node.id })
                } else if node.node_type == RetimeNodeType::PrimaryOutput {
                    po_fanout_error(nodes, es, node.id, node.fanouts@)
                } else {
                    None
                }
            },
        }
    }
}

/// The first fault among the first `k` edges: the edge its id names is
/// missing, or touches no ignored node while the edge has negative weight.
pub open spec fn edge_error(nodes: Seq<RetimeNode>, es: Seq<EdgeView>, k: nat) -> Option<RetimeUtilError>
    decreases k,
{
    if k == 0 {
        None
    } else {
        match edge_error(nodes, es, (k - 1) as nat) {
            Some(e) => Some(e),
            None => {
                let ed = es[k - 1];
                if ed.id >= es.len() {
                    Some(RetimeUtilError::MissingEdge { edge_id: ed.id })
                } else if !ignored(nodes, es[ed.id as int]) && ed.weight < 0 {
                    Some(RetimeUtilError::NegativeEdgeWeight { edge_id: ed.id, weight: ed.weight as i32 })
                } else {
                    None
                }
            },
        }
    }
}

/// Whether an edge goes to `sink` with this weight and fanin slot.
pub open spec fn edge_matches(e: EdgeView, sink: usize, weight: int, sink_fanin_id: usize) -> bool {
    e.sink == sink && e.weight == weight && e.sink_fanin_id == sink_fanin_id
}

/// The position in `ids` of the first edge that matches, if any.
pub open spec fn first_match(es: Seq<EdgeView>, ids: Seq<usize>, sink: usize, weight: int, sink_fanin_id: usize) -> Option<nat> {
    if exists|j: int| 0 <= j < ids.len() && #[trigger] edge_matches(es[ids[j] as int], sink, weight, sink_fanin_id) {
        Some((choose|j: int| 0 <= j < ids.len() && #[trigger] edge_matches(es[ids[j] as int], sink, weight, sink_fanin_id)
            && forall|t: int| 0 <= t < j ==> !#[trigger] edge_matches(es[ids[t] as int], sink, weight, sink_fanin_id)) as nat)
    } else {
        None
    }
}

proof fn lemma_first_match(es: Seq<EdgeView>, ids: Seq<usize>, sink: usize, weight: int, sink_fanin_id: usize, j: int)
    requires
        0 <= j < ids.len(),
        edge_matches(es[ids[j] as int], sink, weight, sink_fanin_id),
        forall|t: int| 0 <= t < j ==> !#[trigger] edge_matches(es[ids[t] as int], sink, weight, sink_fanin_id),
    ensures
        first_match(es, ids, sink, weight, sink_fanin_id) == Some(j as nat),
{
    let c = choose|c: int| 0 <= c < ids.len() && #[trigger] edge_matches(es[ids[c] as int], sink, weight, sink_fanin_id)
        && forall|t: int| 0 <= t < c ==> !#[trigger] edge_matches(es[ids[t] as int], sink, weight, sink_fanin_id);
    assert(0 <= c < ids.len() && edge_matches(es[ids[c] as int], sink, weight, sink_fanin_id)
        && forall|t: int| 0 <= t < c ==> !#[trigger] edge_matches(es[ids[t] as int], sink, weight, sink_fanin_id));
    if c < j {
        assert(!edge_matches(es[ids[c] as int], sink, weight, sink_fanin_id));
    } else if c > j {
        assert(!edge_matches(es[ids[j] as int], sink, weight, sink_fanin_id));
    }
}

proof fn lemma_no_match(es: Seq<EdgeView>, ids: Seq<usize>, sink: usize, weight: int, sink_fanin_id: usize)
    requires
        forall|t: int| 0 <= t < ids.len() ==> !#[trigger] edge_matches(es[ids[t] as int], sink, weight, sink_fanin_id),
    ensures
        first_match(es, ids, sink, weight, sink_fanin_id) is None,
{
}

/// The nodes on the current path of a search, each with the register
/// count it was reached with.
pub type DfsPath = Map<usize, int>;

/// A depth-first search from `node` reached with `weight` registers, at
/// most `level` nodes deep, through fanins (`visit_inputs`) or fanouts,
/// skipping edges that touch an ignored node; nodes are listed after what
/// they reach. A node met again on the path with the same weight is a
/// zero-weight cycle; met with another weight, it is passed over.
/// `Err(None)` stands for a register count outside `i32`.
pub open spec fn dfs_node(nodes: Seq<RetimeNode>, es: Seq<EdgeView>, node: usize, path: DfsPath, visit_inputs: bool,
    level: nat, weight: int, out: Seq<usize>) -> Result<Seq<usize>, Option<RetimeUtilError>>
    decreases level, 1nat, 0nat,
{
    if node >= nodes.len() {
        Err(Some(RetimeUtilError::MissingNode { node_id: node }))
    } else if level == 0 {
        Ok(out)
    } else if path.contains_key(node) {
        if path[node] == weight {
            Err(Some(RetimeUtilError::ZeroWeightCycle { node_id: node, weight: weight as i32 }))
        } else {
            Ok(out)
        }
    } else {
        let ids = if visit_inputs { nodes[node as int].fanins@ } else { nodes[node as int].fanouts@ };
        let inner = if level > 1 {
            dfs_edges(nodes, es, ids, 0, path.insert(node, weight), visit_inputs, (level - 1) as nat, weight, out)
        } else {
            Ok(out)
        };
        match inner {
            Ok(o) => Ok(o.push(node)),
            Err(e) => Err(e),
        }
    }
}

/// The searches through the edges `ids[k..]` in turn.
pub open spec fn dfs_edges(nodes: Seq<RetimeNode>, es: Seq<EdgeView>, ids: Seq<usize>, k: nat, path: DfsPath, visit_inputs: bool,
    level: nat, weight: int, out: Seq<usize>) -> Result<Seq<usize>, Option<RetimeUtilError>>
    decreases level + 1, 0nat, ids.len() - k,
{
    if k >= ids.len() {
        Ok(out)
    } else {
        let e = ids[k as int];
        if e >= es.len() {
            Err(Some(RetimeUtilError::MissingEdge { edge_id: e }))
        } else if ignored(nodes, es[e as int]) {
            dfs_edges(nodes, es, ids, k + 1, path, visit_inputs, level, weight, out)
        } else {
            let w = weight + es[e as int].weight;
            if !(i32::MIN <= w <= i32::MAX) {
                Err(None)
            } else {
                let next = if visit_inputs { es[e as int].source } else { es[e as int].sink };
                match dfs_node(nodes, es, next, path, visit_inputs, level, w, out) {
                    Ok(o) => dfs_edges(nodes, es, ids, k + 1, path, visit_inputs, level, weight, o),
                    Err(x) => Err(x),
                }
            }
        }
    }
}

/// The visited table holds exactly the nodes of the path with their
/// weights.
pub open spec fn path_matches(visited: Seq<Option<i32>>, path: DfsPath) -> bool {
    &&& forall|v: usize| #[trigger] path.contains_key(v) ==> (v as int) < visited.len()
    &&& forall|v: int| 0 <= v < visited.len() ==> #[trigger] visited[v] == if path.contains_key(v as usize) {
        Some(path[v as usize] as i32)
    } else {
        None
    }
    &&& forall|v: usize| #[trigger] path.contains_key(v) ==> i32::MIN <= path[v] <= i32::MAX
}

/// The searches from the roots `roots[k..]` in turn, each unbounded in
/// depth and starting with no registers.
pub open spec fn dfs_roots(nodes: Seq<RetimeNode>, es: Seq<EdgeView>, roots: Seq<usize>, k: nat, visit_inputs: bool,
    out: Seq<usize>) -> Result<Seq<usize>, Option<RetimeUtilError>>
    decreases roots.len() - k,
{
    if k >= roots.len() {
        Ok(out)
    } else {
        match dfs_node(nodes, es, roots[k as int], Map::empty(), visit_inputs, usize::MAX as nat, 0, out) {
            Ok(o) => dfs_roots(nodes, es, roots, k + 1, visit_inputs, o),
            Err(x) => Err(x),
        }
    }
}

proof fn lemma_node_error_stays(nodes: Seq<RetimeNode>, es: Seq<EdgeView>, k: nat, m: nat)
    requires
        k <= m,
        node_error(nodes, es, k) is Some,
    ensures
        node_error(nodes, es, m) == node_error(nodes, es, k),
    decreases m,
{
    if m > k {
        lemma_node_error_stays(nodes, es, k, (m - 1) as nat);
    }
}

proof fn lemma_edge_error_stays(nodes: Seq<RetimeNode>, es: Seq<EdgeView>, k: nat, m: nat)
    requires
        k <= m,
        edge_error(nodes, es, k) is Some,
    ensures
        edge_error(nodes, es, m) == edge_error(nodes, es, k),
    decreases m,
{
    if m > k {
        lemma_edge_error_stays(nodes, es, k, (m - 1) as nat);
    }
}

/// The first fault of a graph: nodes first, then edges.
pub open spec fn graph_error(nodes: Seq<RetimeNode>, es: Seq<EdgeView>) -> Option<RetimeUtilError> {
    match node_error(nodes, es, nodes.len()) {
        Some(e) => Some(e),
        None => edge_error(nodes, es, es.len()),
    }
}


proof fn lemma_edge_error_negative(nodes: Seq<RetimeNode>, es: Seq<EdgeView>, k: nat)
    requires
        k <= es.len(),
    ensures
        edge_error(nodes, es, k) matches Some(RetimeUtilError::NegativeEdgeWeight { edge_id, weight }) ==> exists|j: int|
            0 <= j < k && #[trigger] es[j].id == edge_id && es[j].weight as i32 == weight && es[j].weight < 0,
        edge_error(nodes, es, k) is Some ==> (edge_error(nodes, es, k) matches Some(RetimeUtilError::NegativeEdgeWeight { .. })
            || edge_error(nodes, es, k) matches Some(RetimeUtilError::MissingEdge { .. })),
    decreases k,
{
    if k > 0 {
        lemma_edge_error_negative(nodes, es, (k - 1) as nat);
        if let Some(RetimeUtilError::NegativeEdgeWeight { edge_id, weight }) = edge_error(nodes, es, (k - 1) as nat) {
            let j = choose|j: int| 0 <= j < k - 1 && #[trigger] es[j].id == edge_id && es[j].weight as i32 == weight && es[j].weight < 0;
            assert(es[j].id == edge_id);
        }
        if edge_error(nodes, es, (k - 1) as nat) is None {
            let ed = es[k - 1];
            if ed.id < es.len() && !ignored(nodes, es[ed.id as int]) && ed.weight < 0 {
                assert(es[k - 1].id == ed.id);
            }
        }
    }
}

proof fn lemma_po_fanout_error_kinds(nodes: Seq<RetimeNode>, es: Seq<EdgeView>, node_id: usize, ids: Seq<usize>)
    ensures
        po_fanout_error(nodes, es, node_id, ids) is None || po_fanout_error(nodes, es, node_id, ids) matches Some(RetimeUtilError::MissingEdge { .. })
            || po_fanout_error(nodes, es, node_id, ids) matches Some(RetimeUtilError::PrimaryOutputHasFanouts { .. }),
        (forall|j: int| 0 <= j < ids.len() ==> #[trigger] ids[j] < es.len() && ignored(nodes, es[ids[j] as int]))
            ==> po_fanout_error(nodes, es, node_id, ids) is None,
    decreases ids.len(),
{
    if ids.len() > 0 {
        lemma_po_fanout_error_kinds(nodes, es, node_id, ids.drop_first());
        if forall|j: int| 0 <= j < ids.len() ==> #[trigger] ids[j] < es.len() && ignored(nodes, es[ids[j] as int]) {
            assert(ids[0] < es.len() && ignored(nodes, es[ids[0] as int]));
            assert forall|j: int| 0 <= j < ids.drop_first().len() implies #[trigger] ids.drop_first()[j] < es.len()
                && ignored(nodes, es[ids.drop_first()[j] as int]) by {
                assert(ids.drop_first()[j] == ids[j + 1]);
            }
        }
    }
}

proof fn lemma_node_error_kinds(nodes: Seq<RetimeNode>, es: Seq<EdgeView>, k: nat)
    requires
        k <= nodes.len(),
    ensures
        !(node_error(nodes, es, k) matches Some(RetimeUtilError::NegativeEdgeWeight { .. })),
        (forall|v: int| 0 <= v < nodes.len() ==> legal_io(nodes, es, #[trigger] nodes[v])) ==> node_error(nodes, es, k) is None,
    decreases k,
{
    if k > 0 {
        lemma_node_error_kinds(nodes, es, (k - 1) as nat);
        let node = nodes[k - 1];
        lemma_po_fanout_error_kinds(nodes, es, node.id, node.fanouts@);
    }
}

/// A node is legal when it is not a primary input with fanins, nor a
/// primary output with a fanout edge that is missing or touches no ignored
/// node.
pub open spec fn legal_io(nodes: Seq<RetimeNode>, es: Seq<EdgeView>, node: RetimeNode) -> bool {
    &&& node.node_type == RetimeNodeType::PrimaryInput ==> node.fanins@.len() == 0
    &&& node.node_type == RetimeNodeType::PrimaryOutput ==> forall|j: int| 0 <= j < node.fanouts@.len()
        ==> #[trigger] node.fanouts@[j] < es.len() && ignored(nodes, es[node.fanouts@[j] as int])
}

/// The legality check reports a negative weight only for an edge whose
/// weight is below zero, and accepts a graph whose nodes are legal and
/// whose edges all name edges and carry no negative weight.
pub proof fn lemma_check_graph_weights(g: RetimeGraph)
    ensures
        graph_error(g.nodes@, edges_view(g.edges@)) matches Some(RetimeUtilError::NegativeEdgeWeight { edge_id, weight })
            ==> weight < 0 && exists|j: int| 0 <= j < g.edges@.len() && #[trigger] g.edges@[j].id == edge_id
            && g.edges@[j].weight == weight,
        (forall|v: int| 0 <= v < g.nodes@.len() ==> legal_io(g.nodes@, edges_view(g.edges@), #[trigger] g.nodes@[v]))
            && (forall|j: int| 0 <= j < g.edges@.len() ==> (#[trigger] g.edges@[j]).id < g.edges@.len() && g.edges@[j].weight >= 0)
            ==> graph_error(g.nodes@, edges_view(g.edges@)) is None,
{
    let nodes = g.nodes@;
    let es = edges_view(g.edges@);
    lemma_node_error_kinds(nodes, es, nodes.len());
    lemma_edge_error_negative(nodes, es, es.len());
    if let Some(RetimeUtilError::NegativeEdgeWeight { edge_id, weight }) = graph_error(nodes, es) {
        let j = choose|j: int| 0 <= j < es.len() && #[trigger] es[j].id == edge_id && es[j].weight as i32 == weight && es[j].weight < 0;
        assert(es[j] == edge_view(g.edges@[j]));
        assert(g.edges@[j].id == edge_id);
    }
    if forall|j: int| 0 <= j < g.edges@.len() ==> (#[trigger] g.edges@[j]).id < g.edges@.len() && g.edges@[j].weight >= 0 {
        assert forall|j: int| 0 <= j < es.len() implies (#[trigger] es[j]).id < es.len() && es[j].weight >= 0 by {
            assert(es[j] == edge_view(g.edges@[j]));
        }
        lemma_edge_error_none(nodes, es, es.len());
    }
}

proof fn lemma_edge_error_none(nodes: Seq<RetimeNode>, es: Seq<EdgeView>, k: nat)
    requires
        k <= es.len(),
        forall|j: int| 0 <= j < es.len() ==> (#[trigger] es[j]).id < es.len() && es[j].weight >= 0,
    ensures
        edge_error(nodes, es, k) is None,
    decreases k,
{
    if k > 0 {
        lemma_edge_error_none(nodes, es, (k - 1) as nat);
        assert(es[k - 1].id < es.len() && es[k - 1].weight >= 0);
    }
}


/// Moving registers over a list of distinct, existing edges shifts the
/// weight of each listed edge that touches no ignored node by `delta` and
/// leaves every other weight, and every edge's ends, as they were.
pub proof fn lemma_adjust_shifts_listed_edges(nodes: Seq<RetimeNode>, es: Seq<EdgeView>, ids: Seq<usize>, delta: int, clear: bool)
    requires
        es.len() <= usize::MAX,
        ids.no_duplicates(),
        forall|i: int| 0 <= i < ids.len() ==> (#[trigger] ids[i]) < es.len(),
        forall|e: int| 0 <= e < es.len() ==> (#[trigger] es[e]).source < nodes.len() && es[e].sink < nodes.len(),
    ensures
        adjust_run(nodes, es, ids, delta, clear).1 is None,
        adjust_run(nodes, es, ids, delta, clear).0.len() == es.len(),
        forall|e: int| 0 <= e < es.len() ==> {
            let after = #[trigger] adjust_run(nodes, es, ids, delta, clear).0[e];
            &&& after.weight == es[e].weight + if ids.contains(e as usize) && !ignored(nodes, es[e]) { delta } else { 0 }
            &&& after.source == es[e].source
            &&& after.sink == es[e].sink
            &&& after.id == es[e].id
        },
    decreases ids.len(),
{
    if ids.len() > 0 {
        let e0 = ids[0];
        let rest = ids.drop_first();
        assert(rest.no_duplicates()) by {
            assert forall|i: int, j: int| 0 <= i < rest.len() && 0 <= j < rest.len() && i != j implies rest[i] != rest[j] by {
                assert(rest[i] == ids[i + 1] && rest[j] == ids[j + 1]);
            }
        }
        assert forall|i: int| 0 <= i < rest.len() implies (#[trigger] rest[i]) < es.len() by {
            assert(rest[i] == ids[i + 1]);
        }
        assert forall|i: int| 0 <= i < rest.len() implies #[trigger] rest[i] != e0 by {
            assert(rest[i] == ids[i + 1]);
        }
        let es2 = if ignored(nodes, es[e0 as int]) {
            es
        } else {
            let old = es[e0 as int];
            es.update(e0 as int, if clear {
                EdgeView { weight: old.weight + delta, latches_present: false, initial_values: Seq::empty(), ..old }
            } else {
                EdgeView { weight: old.weight + delta, ..old }
            })
        };
        assert forall|e: int| 0 <= e < es2.len() implies (#[trigger] es2[e]).source < nodes.len() && es2[e].sink < nodes.len() by {
            assert(es2[e].source == es[e].source && es2[e].sink == es[e].sink);
        }
        assert forall|e: int| 0 <= e < es2.len() implies ignored(nodes, #[trigger] es2[e]) == ignored(nodes, es[e]) by {
            assert(es2[e].source == es[e].source && es2[e].sink == es[e].sink);
        }
        lemma_adjust_shifts_listed_edges(nodes, es2, rest, delta, clear);
        assert(adjust_run(nodes, es, ids, delta, clear) == adjust_run(nodes, es2, rest, delta, clear));
        assert forall|e: int| 0 <= e < es.len() implies {
            let after = #[trigger] adjust_run(nodes, es, ids, delta, clear).0[e];
            &&& after.weight == es[e].weight + if ids.contains(e as usize) && !ignored(nodes, es[e]) { delta } else { 0 }
            &&& after.source == es[e].source
            &&& after.sink == es[e].sink
            &&& after.id == es[e].id
        } by {
            let after = adjust_run(nodes, es2, rest, delta, clear).0[e];
            assert(ignored(nodes, es2[e]) == ignored(nodes, es[e]));
            if e == e0 as int {
                assert(ids.contains(e as usize)) by {
                    assert(ids[0] == e0);
                }
                if rest.contains(e as usize) {
                    let i = choose|i: int| 0 <= i < rest.len() && rest[i] == e as usize;
                    assert(rest[i] != e0);
                }
            } else {
                if ids.contains(e as usize) {
                    let i = choose|i: int| 0 <= i < ids.len() && ids[i] == e as usize;
                    assert(ids[i] < es.len());
                    assert((e as usize) as int == e);
                    assert(i != 0);
                    assert(rest[i - 1] == e as usize);
                }
                if rest.contains(e as usize) {
                    let i = choose|i: int| 0 <= i < rest.len() && rest[i] == e as usize;
                    assert(ids[i + 1] == e as usize);
                }
                assert(es2[e] == es[e]);
            }
        }
    }
}


/// Every entry names a node.
pub open spec fn all_nodes(out: Seq<usize>, n: nat) -> bool {
    forall|i: int| 0 <= i < out.len() ==> (#[trigger] out[i]) < n
}

proof fn lemma_dfs_node_valid(nodes: Seq<RetimeNode>, es: Seq<EdgeView>, node: usize, path: DfsPath, visit_inputs: bool,
    level: nat, weight: int, out: Seq<usize>)
    requires
        all_nodes(out, nodes.len()),
    ensures
        dfs_node(nodes, es, node, path, visit_inputs, level, weight, out) matches Ok(o) ==> all_nodes(o, nodes.len()),
    decreases level, 1nat, 0nat,
{
    if node < nodes.len() && level != 0 && !path.contains_key(node) {
        let ids = if visit_inputs { nodes[node as int].fanins@ } else { nodes[node as int].fanouts@ };
        if level > 1 {
            lemma_dfs_edges_valid(nodes, es, ids, 0, path.insert(node, weight), visit_inputs, (level - 1) as nat, weight, out);
            if let Ok(o) = dfs_edges(nodes, es, ids, 0, path.insert(node, weight), visit_inputs, (level - 1) as nat, weight, out) {
                assert(all_nodes(o.push(node), nodes.len())) by {
                    assert forall|i: int| 0 <= i < o.push(node).len() implies (#[trigger] o.push(node)[i]) < nodes.len() by {
                        if i < o.len() {
                            assert(o.push(node)[i] == o[i]);
                        }
                    }
                }
            }
        } else {
            assert(all_nodes(out.push(node), nodes.len())) by {
                assert forall|i: int| 0 <= i < out.push(node).len() implies (#[trigger] out.push(node)[i]) < nodes.len() by {
                    if i < out.len() {
                        assert(out.push(node)[i] == out[i]);
                    }
                }
            }
        }
    }
}

proof fn lemma_dfs_edges_valid(nodes: Seq<RetimeNode>, es: Seq<EdgeView>, ids: Seq<usize>, k: nat, path: DfsPath,
    visit_inputs: bool, level: nat, weight: int, out: Seq<usize>)
    requires
        all_nodes(out, nodes.len()),
    ensures
        dfs_edges(nodes, es, ids, k, path, visit_inputs, level, weight, out) matches Ok(o) ==> all_nodes(o, nodes.len()),
    decreases level + 1, 0nat, ids.len() - k,
{
    if k < ids.len() {
        let e = ids[k as int];
        if e < es.len() {
            if ignored(nodes, es[e as int]) {
                lemma_dfs_edges_valid(nodes, es, ids, k + 1, path, visit_inputs, level, weight, out);
            } else {
                let w = weight + es[e as int].weight;
                if i32::MIN <= w <= i32::MAX {
                    let next = if visit_inputs { es[e as int].source } else { es[e as int].sink };
                    lemma_dfs_node_valid(nodes, es, next, path, visit_inputs, level, w, out);
                    if let Ok(o) = dfs_node(nodes, es, next, path, visit_inputs, level, w, out) {
                        lemma_dfs_edges_valid(nodes, es, ids, k + 1, path, visit_inputs, level, weight, o);
                    }
                }
            }
        }
    }
}

/// A search from the primary outputs or inputs lists only nodes of the
/// graph.
pub proof fn lemma_dfs_lists_nodes(nodes: Seq<RetimeNode>, es: Seq<EdgeView>, roots: Seq<usize>, k: nat, visit_inputs: bool,
    out: Seq<usize>)
    requires
        all_nodes(out, nodes.len()),
    ensures
        dfs_roots(nodes, es, roots, k, visit_inputs, out) matches Ok(o) ==> all_nodes(o, nodes.len()),
    decreases roots.len() - k,
{
    if k < roots.len() {
        lemma_dfs_node_valid(nodes, es, roots[k as int], Map::empty(), visit_inputs, usize::MAX as nat, 0, out);
        if let Ok(o) = dfs_node(nodes, es, roots[k as int], Map::empty(), visit_inputs, usize::MAX as nat, 0, out) {
            lemma_dfs_lists_nodes(nodes, es, roots, k + 1, visit_inputs, o);
        }
    }
}

} // verus!
