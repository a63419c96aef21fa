//! The decisions of the speed-up driver: which nodes to decompose, the
//! steps that replace a node by its decomposition, and the clean-up of
//! primary-output buffers and inverters.

use vstd::prelude::*;
use vstd::std_specs::cmp::PartialEqSpec;
use crate::text::{push_str, chars_of, str_eq};

verus! {

pub const CLP: i32 = 0;

pub const FAN: i32 = 1;

pub const DUAL: i32 = 2;

#[derive(Clone, Copy, Debug, Eq, PartialEq, Structural)]
pub enum DelayModel {
    Unit,
    UnitFanout,
    Library,
    Mapped,
    Tdc,
    Unknown,
}

#[derive(Clone, Copy, Debug, Eq, PartialEq, Structural)]
pub enum NodeKind {
    PrimaryInput,
    PrimaryOutput,
    Internal,
}

#[derive(Clone, Copy, Debug, Eq, PartialEq, Structural)]
pub enum NodeFunction {
    PrimaryInput,
    PrimaryOutput,
    Buffer,
    Inverter,
    Other,
}

/// Whether some fanout is a primary output.
pub fn speed_is_fanout_po(fanout_functions: &[NodeFunction]) -> (r: bool)
    ensures
        r == exists|i: int| 0 <= i < fanout_functions@.len() && fanout_functions@[i] == NodeFunction::PrimaryOutput,
{
    for i in 0..fanout_functions.len()
        invariant
            forall|k: int| 0 <= k < i ==> fanout_functions@[k] != NodeFunction::PrimaryOutput,
    {
        if fanout_functions[i] == NodeFunction::PrimaryOutput {
            return true;
        }
    }
    false
}

#[derive(Clone, Copy, Debug, Eq, PartialEq, Structural)]
pub enum SpeedUpNodeAction {
    SingleLevelUpdate,
    DecomposeAndReplace { delay_flag: bool },
}

/// What to do with a node: decompose an internal node with literals,
/// unless it has at most two fanins and one cube; otherwise only update its
/// timing.
pub fn speed_up_node_action(
    kind: NodeKind,
    literal_count: usize,
    fanin_count: usize,
    cube_count: usize,
    delay_flag: bool,
) -> (r: SpeedUpNodeAction)
    ensures
        r == if kind != NodeKind::Internal || literal_count == 0 || (fanin_count <= 2 && cube_count <= 1) {
            SpeedUpNodeAction::SingleLevelUpdate
        } else {
            SpeedUpNodeAction::DecomposeAndReplace { delay_flag }
        },
{
    if kind != NodeKind::Internal || literal_count == 0 {
        return SpeedUpNodeAction::SingleLevelUpdate;
    }
    if fanin_count <= 2 && cube_count <= 1 {
        return SpeedUpNodeAction::SingleLevelUpdate;
    }
    SpeedUpNodeAction::DecomposeAndReplace { delay_flag }
}

/// A node of a decomposition.
#[derive(Clone, Copy, Debug, Eq, PartialEq)]
pub struct DecompCandidate<N> {
    pub id: N,
    pub kind: NodeKind,
    pub fanin_count: usize,
}

#[derive(Clone, Debug, Eq, PartialEq)]
pub enum ReplaceAction<N> {
    FreeOriginalDecompNode(N),
    ComputeRootArrival(N),
    AddNode(N),
    FreePrimaryInputStub(N),
    ReplaceOriginalWithRoot { original: N, root: N },
    SetOriginalArrival(N),
    TryAlgebraicResubstitute { node: N, excluded_nodes: Vec<N> },
    DeleteResubstitutedNode(N),
    DeleteSingleFaninNode(N),
    DeleteOriginalIfSingleFaninNonPo(N),
    SimplifyOriginal(N),
    UpdateOriginalArrival(N),
}

#[derive(Clone, Copy, Debug, Eq, PartialEq)]
pub enum PrimaryOutputCleanupAction<N> {
    PatchPrimaryOutputFanin { primary_output: N, removed_buffer: N, replacement: N },
    CollapseSingleFaninNodeIntoFanout { node: N, fanout: N },
    DeleteIfFanoutless(N),
}

#[derive(Clone, Copy, Debug, Eq, PartialEq, Structural)]
pub enum CutsetTransformType {
    Clp,
    Fan,
    Dual,
    Unknown(i32),
}

impl CutsetTransformType {
    pub fn from_c_type(value: i32) -> (r: Self)
        ensures
            r == if value == CLP {
                CutsetTransformType::Clp
            } else if value == FAN {
                CutsetTransformType::Fan
            } else if value == DUAL {
                CutsetTransformType::Dual
            } else {
                CutsetTransformType::Unknown(value)
            },
    {
        if value == CLP {
            CutsetTransformType::Clp
        } else if value == FAN {
            CutsetTransformType::Fan
        } else if value == DUAL {
            CutsetTransformType::Dual
        } else {
            CutsetTransformType::Unknown(value)
        }
    }

    pub fn fanin_based(self) -> (r: bool)
        ensures
            r == (self == CutsetTransformType::Clp),
    {
        self == CutsetTransformType::Clp
    }
}

/// The clean-up of a primary output's fanin: a buffer is bypassed when its
/// input is known; a buffer or an inverter is then collapsed into each of
/// its fanouts and deleted once fanout-free. Other fanins are left alone.
pub fn plan_primary_output_cleanup<N: Copy>(
    primary_output: N,
    fanin: N,
    fanin_function: NodeFunction,
    fanin_input: Option<N>,
    fanin_fanouts: &[N],
) -> (r: Vec<PrimaryOutputCleanupAction<N>>)
    ensures
        r@ == if fanin_function != NodeFunction::Buffer && fanin_function != NodeFunction::Inverter {
            Seq::<PrimaryOutputCleanupAction<N>>::empty()
        } else {
            (if fanin_function == NodeFunction::Buffer && fanin_input is Some {
                seq![PrimaryOutputCleanupAction::PatchPrimaryOutputFanin {
                    primary_output,
                    removed_buffer: fanin,
                    replacement: fanin_input->Some_0,
                }]
            } else {
                Seq::<PrimaryOutputCleanupAction<N>>::empty()
            }) + Seq::new(
                fanin_fanouts@.len(),
                |i: int| PrimaryOutputCleanupAction::CollapseSingleFaninNodeIntoFanout { node: fanin, fanout: fanin_fanouts@[i] },
            ) + seq![PrimaryOutputCleanupAction::DeleteIfFanoutless(fanin)]
        },
{
    let mut actions: Vec<PrimaryOutputCleanupAction<N>> = Vec::new();
    if fanin_function == NodeFunction::Buffer {
        if let Some(replacement) = fanin_input {
            actions.push(PrimaryOutputCleanupAction::PatchPrimaryOutputFanin {
                primary_output,
                removed_buffer: fanin,
                replacement,
            });
        }
    } else if fanin_function != NodeFunction::Inverter {
        return actions;
    }
    let ghost head = actions@;
    for i in 0..fanin_fanouts.len()
        invariant
            actions@ == head + Seq::new(
                i as nat,
                |k: int| PrimaryOutputCleanupAction::CollapseSingleFaninNodeIntoFanout { node: fanin, fanout: fanin_fanouts@[k] },
            ),
    {
        actions.push(PrimaryOutputCleanupAction::CollapseSingleFaninNodeIntoFanout { node: fanin, fanout: fanin_fanouts[i] });
        assert(actions@ =~= head + Seq::new(
            (i + 1) as nat,
            |k: int| PrimaryOutputCleanupAction::CollapseSingleFaninNodeIntoFanout { node: fanin, fanout: fanin_fanouts@[k] },
        ));
    }
    actions.push(PrimaryOutputCleanupAction::DeleteIfFanoutless(fanin));
    actions
}


/// A replacement step as a value.
pub enum ReplaceStep<N> {
    FreeOriginalDecompNode(N),
    ComputeRootArrival(N),
    AddNode(N),
    FreePrimaryInputStub(N),
    ReplaceOriginalWithRoot { original: N, root: N },
    SetOriginalArrival(N),
    TryAlgebraicResubstitute { node: N, excluded_nodes: Seq<N> },
    DeleteResubstitutedNode(N),
    DeleteSingleFaninNode(N),
    DeleteOriginalIfSingleFaninNonPo(N),
    SimplifyOriginal(N),
    UpdateOriginalArrival(N),
}

pub open spec fn step_view<N>(a: ReplaceAction<N>) -> ReplaceStep<N> {
    match a {
        ReplaceAction::FreeOriginalDecompNode(n) => ReplaceStep::FreeOriginalDecompNode(n),
        ReplaceAction::ComputeRootArrival(n) => ReplaceStep::ComputeRootArrival(n),
        ReplaceAction::AddNode(n) => ReplaceStep::AddNode(n),
        ReplaceAction::FreePrimaryInputStub(n) => ReplaceStep::FreePrimaryInputStub(n),
        ReplaceAction::ReplaceOriginalWithRoot { original, root } => ReplaceStep::ReplaceOriginalWithRoot { original, root },
        ReplaceAction::SetOriginalArrival(n) => ReplaceStep::SetOriginalArrival(n),
        ReplaceAction::TryAlgebraicResubstitute { node, excluded_nodes } => ReplaceStep::TryAlgebraicResubstitute {
            node,
            excluded_nodes: excluded_nodes@,
        },
        ReplaceAction::DeleteResubstitutedNode(n) => ReplaceStep::DeleteResubstitutedNode(n),
        ReplaceAction::DeleteSingleFaninNode(n) => ReplaceStep::DeleteSingleFaninNode(n),
        ReplaceAction::DeleteOriginalIfSingleFaninNonPo(n) => ReplaceStep::DeleteOriginalIfSingleFaninNonPo(n),
        ReplaceAction::SimplifyOriginal(n) => ReplaceStep::SimplifyOriginal(n),
        ReplaceAction::UpdateOriginalArrival(n) => ReplaceStep::UpdateOriginalArrival(n),
    }
}

pub open spec fn steps_view<N>(v: Seq<ReplaceAction<N>>) -> Seq<ReplaceStep<N>> {
    Seq::new(v.len(), |i: int| step_view(v[i]))
}

/// The options of the replacement that matter to it.
#[derive(Clone, Copy, Debug, Eq, PartialEq)]
pub struct ReplaceParameters {
    pub area_reclaim: bool,
    pub add_inv: bool,
}

/// The walk over the decomposition's nodes from the last down to the third:
/// the steps so far, the node ids not yet added, and the added nodes with a
/// single fanin, and those kept for resubstitution with the nodes then not
/// yet added.
pub struct ReplaceWalk<N> {
    pub actions: Seq<ReplaceStep<N>>,
    pub remaining: Seq<N>,
    pub single: Seq<N>,
    pub reclaim: Seq<(N, Seq<N>)>,
}

/// The walk after `k` nodes, from the last one down.
pub open spec fn replace_walk<N: PartialEq>(d: Seq<DecompCandidate<N>>, area_reclaim: bool, k: nat) -> ReplaceWalk<N>
    decreases k,
{
    if k == 0 {
        ReplaceWalk {
            actions: seq![ReplaceStep::FreeOriginalDecompNode(d[0].id), ReplaceStep::ComputeRootArrival(d[1].id)],
            remaining: Seq::new((d.len() - 2) as nat, |i: int| d[i + 2].id),
            single: seq![],
            reclaim: seq![],
        }
    } else {
        let w = replace_walk(d, area_reclaim, (k - 1) as nat);
        let node = d[d.len() - k];
        if node.kind != NodeKind::PrimaryInput {
            let remaining = w.remaining.filter(|c: N| !c.eq_spec(&node.id));
            ReplaceWalk {
                actions: w.actions.push(ReplaceStep::AddNode(node.id)),
                remaining,
                single: if node.fanin_count < 2 { w.single.push(node.id) } else { w.single },
                reclaim: if node.fanin_count >= 2 && area_reclaim { w.reclaim.push((node.id, remaining)) } else { w.reclaim },
            }
        } else {
            ReplaceWalk {
                actions: w.actions.push(ReplaceStep::FreePrimaryInputStub(node.id)),
                remaining: w.remaining,
                single: w.single,
                reclaim: w.reclaim,
            }
        }
    }
}

/// The steps for the nodes kept for resubstitution.
pub open spec fn reclaim_steps<N>(reclaim: Seq<(N, Seq<N>)>) -> Seq<ReplaceStep<N>>
    decreases reclaim.len(),
{
    if reclaim.len() == 0 {
        seq![]
    } else {
        reclaim_steps(reclaim.drop_last()) + seq![
            ReplaceStep::TryAlgebraicResubstitute { node: reclaim.last().0, excluded_nodes: reclaim.last().1 },
            ReplaceStep::DeleteResubstitutedNode(reclaim.last().0),
        ]
    }
}

/// The steps that replace `original` by its decomposition `d` (see
/// [`plan_speed_replace`]).
pub open spec fn replace_plan<N: PartialEq>(
    original: N,
    d: Seq<DecompCandidate<N>>,
    params: ReplaceParameters,
    fanin_count_after: usize,
    has_po_fanout: bool,
) -> Seq<ReplaceStep<N>> {
    if d.len() <= 3 {
        seq![ReplaceStep::SimplifyOriginal(original), ReplaceStep::UpdateOriginalArrival(original)]
    } else {
        let w = replace_walk(d, params.area_reclaim, (d.len() - 2) as nat);
        w.actions + seq![ReplaceStep::ReplaceOriginalWithRoot { original, root: d[1].id }, ReplaceStep::SetOriginalArrival(original)]
            + reclaim_steps(w.reclaim) + (if !params.add_inv {
            Seq::new(w.single.len(), |i: int| ReplaceStep::DeleteSingleFaninNode(w.single[i]))
        } else {
            Seq::<ReplaceStep<N>>::empty()
        }) + (if fanin_count_after == 1 && !has_po_fanout {
            seq![ReplaceStep::DeleteOriginalIfSingleFaninNonPo(original)]
        } else {
            Seq::<ReplaceStep<N>>::empty()
        })
    }
}

/// The ids of `v` other than `id`, in order.
fn without<N: Copy + PartialEq>(v: &Vec<N>, id: N) -> (r: Vec<N>)
    requires
        N::obeys_eq_spec(),
    ensures
        r@ == v@.filter(|c: N| !c.eq_spec(&id)),
{
    let mut out: Vec<N> = Vec::new();
    for i in 0..v.len()
        invariant
            N::obeys_eq_spec(),
            out@ == v@.take(i as int).filter(|c: N| !c.eq_spec(&id)),
    {
        let c = v[i];
        assert(v@.take(i + 1).drop_last() =~= v@.take(i as int));
        if c != id {
            out.push(c);
        }
        proof {
            reveal(Seq::filter);
            assert(v@.take(i + 1).last() == c);
        }
    }
    assert(v@.take(v@.len() as int) =~= v@);
    out
}

fn copy_ids<N: Copy>(v: &Vec<N>) -> (r: Vec<N>)
    ensures
        r@ == v@,
{
    let mut out: Vec<N> = Vec::new();
    for k in 0..v.len()
        invariant
            out@ == v@.take(k as int),
    {
        out.push(v[k]);
        assert(v@.take(k + 1) =~= v@.take(k as int).push(v@[k as int]));
    }
    assert(v@.take(v@.len() as int) =~= v@);
    out
}

/// The steps that replace `original` by its decomposition: with at most
/// three nodes, `original` is only simplified and re-timed. Otherwise the
/// first node (the copy of `original`) is freed, the root (second) is
/// timed, and the others are, from the last down, added (or, for input
/// stubs, freed); `original` is then replaced by the root and re-timed; the
/// added multi-fanin nodes are tried for resubstitution when reclaiming
/// area; without inverters the added single-fanin nodes are deleted; and
/// `original` is deleted when left with one fanin and no output fanout.
pub fn plan_speed_replace<N: Copy + PartialEq>(
    original: N,
    decomposed_nodes: &[DecompCandidate<N>],
    params: ReplaceParameters,
    original_fanin_count_after_replace: usize,
    original_has_po_fanout: bool,
) -> (r: Vec<ReplaceAction<N>>)
    requires
        N::obeys_eq_spec(),
    ensures
        steps_view(r@) == replace_plan(original, decomposed_nodes@, params, original_fanin_count_after_replace, original_has_po_fanout),
{
    let ghost d = decomposed_nodes@;
    let n = decomposed_nodes.len();
    proof {
        reveal(Seq::filter);
    }
    if n <= 3 {
        let mut v: Vec<ReplaceAction<N>> = Vec::new();
        v.push(ReplaceAction::SimplifyOriginal(original));
        v.push(ReplaceAction::UpdateOriginalArrival(original));
        assert(steps_view(v@) =~= replace_plan(original, d, params, original_fanin_count_after_replace, original_has_po_fanout));
        return v;
    }
    let mut actions: Vec<ReplaceAction<N>> = Vec::new();
    actions.push(ReplaceAction::FreeOriginalDecompNode(decomposed_nodes[0].id));
    let root = decomposed_nodes[1].id;
    actions.push(ReplaceAction::ComputeRootArrival(root));
    let mut remaining: Vec<N> = Vec::new();
    for i in 2..n
        invariant
            n == d.len(),
            d == decomposed_nodes@,
            remaining@ == Seq::new((i - 2) as nat, |k: int| d[k + 2].id),
    {
        remaining.push(decomposed_nodes[i].id);
        assert(remaining@ =~= Seq::new((i - 1) as nat, |k: int| d[k + 2].id));
    }
    let mut single: Vec<N> = Vec::new();
    let mut reclaim: Vec<(N, Vec<N>)> = Vec::new();
    assert(steps_view(actions@) =~= replace_walk(d, params.area_reclaim, 0).actions);
    let mut k: usize = 0;
    while k < n - 2
        invariant
            N::obeys_eq_spec(),
            n == d.len(),
            n > 3,
            d == decomposed_nodes@,
            k <= n - 2,
            steps_view(actions@) == replace_walk(d, params.area_reclaim, k as nat).actions,
            remaining@ == replace_walk(d, params.area_reclaim, k as nat).remaining,
            single@ == replace_walk(d, params.area_reclaim, k as nat).single,
            reclaim@.len() == replace_walk(d, params.area_reclaim, k as nat).reclaim.len(),
            forall|j: int| 0 <= j < reclaim@.len() ==> (#[trigger] reclaim@[j]).0 == replace_walk(d, params.area_reclaim, k as nat).reclaim[j].0
                && reclaim@[j].1@ == replace_walk(d, params.area_reclaim, k as nat).reclaim[j].1,
        decreases n - 2 - k,
    {
        let ghost w = replace_walk(d, params.area_reclaim, k as nat);
        let node = decomposed_nodes[n - 1 - k];
        if node.kind != NodeKind::PrimaryInput {
            remaining = without(&remaining, node.id);
            actions.push(ReplaceAction::AddNode(node.id));
            if node.fanin_count < 2 {
                single.push(node.id);
            } else if params.area_reclaim {
                reclaim.push((node.id, copy_ids(&remaining)));
            }
        } else {
            actions.push(ReplaceAction::FreePrimaryInputStub(node.id));
        }
        assert(steps_view(actions@) =~= replace_walk(d, params.area_reclaim, (k + 1) as nat).actions);
        k = k + 1;
    }
    let ghost w = replace_walk(d, params.area_reclaim, (n - 2) as nat);
    actions.push(ReplaceAction::ReplaceOriginalWithRoot { original, root });
    actions.push(ReplaceAction::SetOriginalArrival(original));
    let ghost base = steps_view(actions@);
    assert(base =~= w.actions + seq![ReplaceStep::ReplaceOriginalWithRoot { original, root: d[1].id }, ReplaceStep::SetOriginalArrival(original)]);
    for j in 0..reclaim.len()
        invariant
            reclaim@.len() == w.reclaim.len(),
            forall|q: int| 0 <= q < reclaim@.len() ==> (#[trigger] reclaim@[q]).0 == w.reclaim[q].0 && reclaim@[q].1@ == w.reclaim[q].1,
            steps_view(actions@) == base + reclaim_steps(w.reclaim.take(j as int)),
    {
        let node = reclaim[j].0;
        let excluded = copy_ids(&reclaim[j].1);
        let ghost prev = steps_view(actions@);
        actions.push(ReplaceAction::TryAlgebraicResubstitute { node, excluded_nodes: excluded });
        actions.push(ReplaceAction::DeleteResubstitutedNode(node));
        assert(steps_view(actions@) =~= prev + seq![
            ReplaceStep::TryAlgebraicResubstitute { node: w.reclaim[j as int].0, excluded_nodes: w.reclaim[j as int].1 },
            ReplaceStep::DeleteResubstitutedNode(w.reclaim[j as int].0),
        ]);
        assert(w.reclaim.take(j + 1).drop_last() =~= w.reclaim.take(j as int));
        assert(w.reclaim.take(j + 1).last() == w.reclaim[j as int]);
        assert(steps_view(actions@) =~= base + reclaim_steps(w.reclaim.take(j + 1)));
    }
    assert(w.reclaim.take(reclaim@.len() as int) =~= w.reclaim);
    let ghost base2 = steps_view(actions@);
    if !params.add_inv {
        for j in 0..single.len()
            invariant
                steps_view(actions@) == base2 + Seq::new(j as nat, |i: int| ReplaceStep::DeleteSingleFaninNode(single@[i])),
        {
            let ghost prev = steps_view(actions@);
            actions.push(ReplaceAction::DeleteSingleFaninNode(single[j]));
            assert(steps_view(actions@) =~= prev.push(ReplaceStep::DeleteSingleFaninNode(single@[j as int])));
            assert(steps_view(actions@) =~= base2 + Seq::new((j + 1) as nat, |i: int| ReplaceStep::DeleteSingleFaninNode(single@[i])));
        }
    }
    let ghost base3 = steps_view(actions@);
    if original_fanin_count_after_replace == 1 && !original_has_po_fanout {
        actions.push(ReplaceAction::DeleteOriginalIfSingleFaninNonPo(original));
    }
    assert(steps_view(actions@) =~= replace_plan(original, d, params, original_fanin_count_after_replace, original_has_po_fanout));
    actions
}


#[derive(Clone, Debug, Eq, PartialEq)]
pub enum SpeedUpError {
    UnknownNode(String),
    MissingWeight(String),
    MissingTransform(usize),
    MissingNativeSupport { operation: &'static str },
}

/// What a speed-up error reports, with its strings as character sequences.
pub enum SpeedFailure {
    UnknownNode(Seq<char>),
    MissingWeight(Seq<char>),
    MissingTransform(usize),
    MissingNativeSupport(Seq<char>),
}

impl SpeedUpError {
    pub open spec fn failure(&self) -> SpeedFailure {
        match *self {
            SpeedUpError::UnknownNode(s) => SpeedFailure::UnknownNode(s@),
            SpeedUpError::MissingWeight(s) => SpeedFailure::MissingWeight(s@),
            SpeedUpError::MissingTransform(i) => SpeedFailure::MissingTransform(i),
            SpeedUpError::MissingNativeSupport { operation } => SpeedFailure::MissingNativeSupport(operation@),
        }
    }
}

/// Strict lexicographic order of character sequences, which is the order of
/// Rust strings.
pub open spec fn lex_lt(a: Seq<char>, b: Seq<char>) -> bool
    decreases a.len(),
{
    if a.len() == 0 {
        b.len() > 0
    } else if b.len() == 0 {
        false
    } else if a[0] != b[0] {
        a[0] < b[0]
    } else {
        lex_lt(a.drop_first(), b.drop_first())
    }
}

proof fn lemma_lex_total(a: Seq<char>, b: Seq<char>)
    ensures
        a == b || lex_lt(a, b) || lex_lt(b, a),
    decreases a.len(),
{
    if a.len() > 0 && b.len() > 0 && a[0] == b[0] {
        lemma_lex_total(a.drop_first(), b.drop_first());
        if a.drop_first() == b.drop_first() {
            assert(a =~= seq![a[0]] + a.drop_first());
            assert(b =~= seq![b[0]] + b.drop_first());
        }
    } else if a.len() == 0 && b.len() == 0 {
        assert(a =~= b);
    }
}

fn lex_less(a: &str, b: &str) -> (r: bool)
    ensures
        r == lex_lt(a@, b@),
{
    let x = chars_of(a);
    let y = chars_of(b);
    let mut i: usize = 0;
    assert(a@.skip(0) =~= a@ && b@.skip(0) =~= b@);
    while i < x.len() && i < y.len() && x[i] == y[i]
        invariant
            i <= x@.len(),
            i <= y@.len(),
            x@ == a@,
            y@ == b@,
            lex_lt(a@, b@) == lex_lt(a@.skip(i as int), b@.skip(i as int)),
        decreases x@.len() - i,
    {
        assert(a@.skip(i as int).drop_first() =~= a@.skip(i + 1));
        assert(b@.skip(i as int).drop_first() =~= b@.skip(i + 1));
        assert(a@.skip(i as int)[0] == a@[i as int]);
        assert(b@.skip(i as int)[0] == b@[i as int]);
        i = i + 1;
    }
    if i < x.len() && i < y.len() {
        assert(a@.skip(i as int)[0] == a@[i as int]);
        assert(b@.skip(i as int)[0] == b@[i as int]);
        x[i] < y[i]
    } else {
        i == x.len() && i < y.len()
    }
}

/// Adjacent names are in increasing order.
pub open spec fn lex_sorted(v: Seq<Seq<char>>) -> bool {
    forall|i: int| 0 <= i < v.len() - 1 ==> lex_lt(#[trigger] v[i], v[i + 1])
}

/// The views of names.
pub open spec fn names<'a>(v: Seq<&'a str>) -> Seq<Seq<char>> {
    Seq::new(v.len(), |i: int| v[i]@)
}

fn contains_name<'a>(v: &Vec<&'a str>, x: &str) -> (r: bool)
    ensures
        r == names(v@).contains(x@),
{
    for k in 0..v.len()
        invariant
            forall|i: int| 0 <= i < k ==> v@[i]@ != x@,
    {
        if str_eq(v[k], x) {
            assert(names(v@)[k as int] == x@);
            return true;
        }
    }
    assert forall|i: int| 0 <= i < names(v@).len() implies names(v@)[i] != x@ by {
        assert(names(v@)[i] == v@[i]@);
    }
    false
}

/// Adds `x` to a sorted list of distinct names unless present.
fn insert_name<'a>(v: &mut Vec<&'a str>, x: &'a str)
    requires
        lex_sorted(names(old(v)@)),
    ensures
        lex_sorted(names(final(v)@)),
        forall|y: Seq<char>| names(final(v)@).contains(y) <==> (names(old(v)@).contains(y) || y == x@),
{
    if contains_name(v, x) {
        return;
    }
    let ghost s = names(v@);
    let mut p = v.len();
    while p > 0 && lex_less(x, v[p - 1])
        invariant
            p <= v@.len(),
            s == names(v@),
            p == v@.len() || lex_lt(x@, s[p as int]),
        decreases p,
    {
        assert(s[p - 1] == v@[p - 1]@);
        p = p - 1;
    }
    if p > 0 {
        assert(s[p - 1] == v@[p - 1]@);
        assert(s.contains(s[p - 1]));
        assert(s[p - 1] != x@);
        proof {
            lemma_lex_total(s[p - 1], x@);
        }
    }
    v.insert(p, x);
    let ghost t = names(v@);
    assert(t =~= s.take(p as int).push(x@) + s.skip(p as int));
    assert forall|i: int| 0 <= i < t.len() - 1 implies lex_lt(#[trigger] t[i], t[i + 1]) by {
        if i + 1 < p {
            assert(t[i] == s[i] && t[i + 1] == s[i + 1]);
        } else if i + 1 == p {
            assert(t[i] == s[i] && t[i + 1] == x@);
        } else if i == p {
            assert(t[i] == x@ && t[i + 1] == s[i]);
        } else {
            assert(t[i] == s[i - 1] && t[i + 1] == s[i]);
        }
    }
    assert forall|y: Seq<char>| t.contains(y) <==> (s.contains(y) || y == x@) by {
        if t.contains(y) {
            let k = choose|k: int| 0 <= k < t.len() && t[k] == y;
            if k < p {
                assert(s[k] == y);
            } else if k > p {
                assert(s[k - 1] == y);
            }
        }
        if s.contains(y) {
            let k = choose|k: int| 0 <= k < s.len() && s[k] == y;
            if k < p {
                assert(t[k] == y);
            } else {
                assert(t[k + 1] == y);
            }
        }
        if y == x@ {
            assert(t[p as int] == y);
        }
    }
}


/// A node for algebraic resubstitution.
#[derive(Clone, Debug, Eq, PartialEq)]
pub struct ResubNode<'a> {
    pub id: &'a str,
    pub kind: NodeKind,
    pub fanins: Vec<&'a str>,
    pub fanouts: Vec<&'a str>,
    pub literal_count: usize,
}

/// The position of the last node named `id`, or -1.
pub open spec fn resub_pos<'a>(nodes: Seq<ResubNode<'a>>, id: Seq<char>) -> int
    decreases nodes.len(),
{
    if nodes.len() == 0 {
        -1
    } else if nodes.last().id@ == id {
        nodes.len() - 1
    } else {
        resub_pos(nodes.drop_last(), id)
    }
}

proof fn lemma_resub_pos<'a>(nodes: Seq<ResubNode<'a>>, id: Seq<char>)
    ensures
        -1 <= resub_pos(nodes, id) < nodes.len(),
        resub_pos(nodes, id) >= 0 ==> nodes[resub_pos(nodes, id)].id@ == id,
    decreases nodes.len(),
{
    if nodes.len() > 0 && nodes.last().id@ != id {
        lemma_resub_pos(nodes.drop_last(), id);
    }
}

fn find_resub<'a>(nodes: &[ResubNode<'a>], id: &str) -> (r: Option<usize>)
    ensures
        match r {
            Some(i) => i < nodes@.len() && i as int == resub_pos(nodes@, id@),
            None => resub_pos(nodes@, id@) == -1,
        },
{
    let mut k = nodes.len();
    assert(nodes@.take(k as int) =~= nodes@);
    while k > 0
        invariant
            k <= nodes@.len(),
            resub_pos(nodes@, id@) == resub_pos(nodes@.take(k as int), id@),
        decreases k,
    {
        assert(nodes@.take(k as int).last() == nodes@[k - 1]);
        if str_eq(nodes[k - 1].id, id) {
            return Some(k - 1);
        }
        assert(nodes@.take(k as int).drop_last() =~= nodes@.take(k - 1));
        k = k - 1;
    }
    None
}

/// Whether `o` is excluded.
pub open spec fn is_excluded<'a>(excluded: Option<Seq<&'a str>>, o: Seq<char>) -> bool {
    match excluded {
        Some(e) => names(e).contains(o),
        None => false,
    }
}

/// The candidate targets among the first `j` fanouts `fos`, added to `acc`:
/// those with at most two fanins that are not excluded.
pub open spec fn fanout_targets<'a>(
    nodes: Seq<ResubNode<'a>>,
    fos: Seq<&'a str>,
    excluded: Option<Seq<&'a str>>,
    acc: Seq<Seq<char>>,
    j: nat,
) -> Result<Seq<Seq<char>>, SpeedFailure>
    decreases j,
{
    if j == 0 {
        Ok(acc)
    } else {
        match fanout_targets(nodes, fos, excluded, acc, (j - 1) as nat) {
            Err(e) => Err(e),
            Ok(a) => {
                let o = fos[j - 1]@;
                let q = resub_pos(nodes, o);
                if q < 0 {
                    Err(SpeedFailure::UnknownNode(o))
                } else if nodes[q].fanins@.len() <= 2 && !is_excluded(excluded, o) {
                    Ok(a.push(o))
                } else {
                    Ok(a)
                }
            },
        }
    }
}

/// The candidate targets from the fanouts of the first `k` fanins.
pub open spec fn fanin_targets<'a>(
    nodes: Seq<ResubNode<'a>>,
    fanins: Seq<&'a str>,
    excluded: Option<Seq<&'a str>>,
    k: nat,
) -> Result<Seq<Seq<char>>, SpeedFailure>
    decreases k,
{
    if k == 0 {
        Ok(seq![])
    } else {
        match fanin_targets(nodes, fanins, excluded, (k - 1) as nat) {
            Err(e) => Err(e),
            Ok(acc) => {
                let f = fanins[k - 1]@;
                let p = resub_pos(nodes, f);
                if p < 0 {
                    Err(SpeedFailure::UnknownNode(f))
                } else {
                    let fos = nodes[p].fanouts@;
                    fanout_targets(nodes, fos, excluded, acc, fos.len())
                }
            },
        }
    }
}

/// The resubstitution targets of a source: none unless it is an internal
/// node with literals and at most one fanout; else the fanouts of its fanins
/// that have at most two fanins and are not excluded.
pub open spec fn targets_result<'a>(nodes: Seq<ResubNode<'a>>, source: Seq<char>, excluded: Option<Seq<&'a str>>)
    -> Result<Seq<Seq<char>>, SpeedFailure> {
    let p = resub_pos(nodes, source);
    if p < 0 {
        Err(SpeedFailure::UnknownNode(source))
    } else {
        let s = nodes[p];
        if s.kind != NodeKind::Internal || s.literal_count < 1 || s.fanouts@.len() > 1 {
            Ok(seq![])
        } else {
            fanin_targets(nodes, s.fanins@, excluded, s.fanins@.len())
        }
    }
}

proof fn lemma_fanout_targets_err<'a>(
    nodes: Seq<ResubNode<'a>>,
    fos: Seq<&'a str>,
    excluded: Option<Seq<&'a str>>,
    acc: Seq<Seq<char>>,
    j: nat,
    m: nat,
)
    requires
        j <= m,
        fanout_targets(nodes, fos, excluded, acc, j) is Err,
    ensures
        fanout_targets(nodes, fos, excluded, acc, m) == fanout_targets(nodes, fos, excluded, acc, j),
    decreases m - j,
{
    if j < m {
        lemma_fanout_targets_err(nodes, fos, excluded, acc, j, (m - 1) as nat);
    }
}

proof fn lemma_fanin_targets_err<'a>(
    nodes: Seq<ResubNode<'a>>,
    fanins: Seq<&'a str>,
    excluded: Option<Seq<&'a str>>,
    k: nat,
    m: nat,
)
    requires
        k <= m,
        fanin_targets(nodes, fanins, excluded, k) is Err,
    ensures
        fanin_targets(nodes, fanins, excluded, m) == fanin_targets(nodes, fanins, excluded, k),
    decreases m - k,
{
    if k < m {
        lemma_fanin_targets_err(nodes, fanins, excluded, k, (m - 1) as nat);
    }
}

fn unknown_node(id: &str) -> (e: SpeedUpError)
    ensures
        e.failure() == SpeedFailure::UnknownNode(id@),
{
    SpeedUpError::UnknownNode(id.to_owned())
}

fn excluded_has<'a>(excluded: Option<&[&'a str]>, o: &str) -> (r: bool)
    ensures
        r == is_excluded(match excluded { Some(e) => Some(e@), None => None }, o@),
{
    match excluded {
        None => false,
        Some(e) => {
            for k in 0..e.len()
                invariant
                    excluded == Some(e),
                    forall|i: int| 0 <= i < k ==> e@[i]@ != o@,
            {
                if str_eq(e[k], o) {
                    assert(names(e@)[k as int] == o@);
                    assert(names(e@).contains(o@));
                    return true;
                }
            }
            assert forall|i: int| 0 <= i < names(e@).len() implies names(e@)[i] != o@ by {
                assert(names(e@)[i] == e@[i]@);
            }
            false
        },
    }
}

/// The nodes the source could be resubstituted into: the fanouts of its
/// fanins with at most two fanins, not excluded, each once, in increasing
/// order; none unless the source is an internal node with literals and at
/// most one fanout.
pub fn algebraic_resubstitution_targets<'a>(source: &str, nodes: &[ResubNode<'a>], excluded: Option<&[&'a str]>)
    -> (r: Result<Vec<&'a str>, SpeedUpError>)
    ensures
        match targets_result(nodes@, source@, match excluded { Some(e) => Some(e@), None => None }) {
            Ok(c) => r matches Ok(v) && names(v@) == sorted_names(c),
            Err(f) => r matches Err(e) && e.failure() == f,
        },
{
    let ghost ex = match excluded { Some(e) => Some(e@), None => None };
    let ghost ns = nodes@;
    let p = match find_resub(nodes, source) {
        None => {
            return Err(unknown_node(source));
        },
        Some(p) => p,
    };
    let s = &nodes[p];
    if s.kind != NodeKind::Internal || s.literal_count < 1 || s.fanouts.len() > 1 {
        let empty: Vec<&'a str> = Vec::new();
        proof {
            assert(names(empty@) =~= Seq::<Seq<char>>::empty());
            lemma_sorted_names(names(empty@), Seq::<Seq<char>>::empty());
        }
        return Ok(empty);
    }
    let mut cands: Vec<&'a str> = Vec::new();
    assert(names(cands@) =~= Seq::<Seq<char>>::empty());
    for k in 0..s.fanins.len()
        invariant
            ns == nodes@,
            !(s.kind != NodeKind::Internal || s.literal_count < 1 || s.fanouts@.len() > 1),
            p as int == resub_pos(ns, source@),
            p < ns.len(),
            *s == ns[p as int],
            ex == (match excluded { Some(e) => Some(e@), None => None }),
            fanin_targets(ns, s.fanins@, ex, k as nat) == Ok::<Seq<Seq<char>>, SpeedFailure>(names(cands@)),
    {
        let f = s.fanins[k];
        let q = match find_resub(nodes, f) {
            None => {
                proof {
                    lemma_fanin_targets_err(ns, s.fanins@, ex, (k + 1) as nat, s.fanins@.len());
                }
                return Err(unknown_node(f));
            },
            Some(q) => q,
        };
        let fnode = &nodes[q];
        let ghost acc = names(cands@);
        for j in 0..fnode.fanouts.len()
            invariant
                ns == nodes@,
                !(s.kind != NodeKind::Internal || s.literal_count < 1 || s.fanouts@.len() > 1),
                p as int == resub_pos(ns, source@),
                p < ns.len(),
                *s == ns[p as int],
                k < s.fanins@.len(),
                f == s.fanins@[k as int],
                q as int == resub_pos(ns, f@),
                q < ns.len(),
                *fnode == ns[q as int],
                ex == (match excluded { Some(e) => Some(e@), None => None }),
                fanin_targets(ns, s.fanins@, ex, k as nat) == Ok::<Seq<Seq<char>>, SpeedFailure>(acc),
                fanout_targets(ns, fnode.fanouts@, ex, acc, j as nat) == Ok::<Seq<Seq<char>>, SpeedFailure>(names(cands@)),
        {
            let o = fnode.fanouts[j];
            let r = match find_resub(nodes, o) {
                None => {
                    proof {
                        lemma_fanout_targets_err(ns, fnode.fanouts@, ex, acc, (j + 1) as nat, fnode.fanouts@.len());
                        lemma_fanin_targets_err(ns, s.fanins@, ex, (k + 1) as nat, s.fanins@.len());
                    }
                    return Err(unknown_node(o));
                },
                Some(r) => r,
            };
            if nodes[r].fanins.len() <= 2 && !excluded_has(excluded, o) {
                let ghost before = cands@;
                cands.push(o);
                assert(names(cands@) =~= names(before).push(o@));
            }
        }
    }
    let ghost c = names(cands@);
    let mut out: Vec<&'a str> = Vec::new();
    for k in 0..cands.len()
        invariant
            c == names(cands@),
            lex_sorted(names(out@)),
            forall|y: Seq<char>| names(out@).contains(y) <==> names(cands@.take(k as int)).contains(y),
    {
        insert_name(&mut out, cands[k]);
        assert forall|y: Seq<char>| names(out@).contains(y) <==> names(cands@.take(k + 1)).contains(y) by {
            let t1 = names(cands@.take(k + 1));
            let t0 = names(cands@.take(k as int));
            if t1.contains(y) {
                let i = choose|i: int| 0 <= i < t1.len() && t1[i] == y;
                if i < k {
                    assert(t0[i] == y);
                }
            }
            if t0.contains(y) {
                let i = choose|i: int| 0 <= i < t0.len() && t0[i] == y;
                assert(t1[i] == y);
            }
            if y == cands@[k as int]@ {
                assert(t1[k as int] == y);
            }
        }
    }
    assert(cands@.take(cands@.len() as int) =~= cands@);
    proof {
        lemma_sorted_names(names(out@), c);
    }
    Ok(out)
}


proof fn lemma_lex_irrefl(a: Seq<char>)
    ensures
        !lex_lt(a, a),
    decreases a.len(),
{
    if a.len() > 0 {
        lemma_lex_irrefl(a.drop_first());
    }
}

proof fn lemma_lex_trans(a: Seq<char>, b: Seq<char>, c: Seq<char>)
    requires
        lex_lt(a, b),
        lex_lt(b, c),
    ensures
        lex_lt(a, c),
    decreases a.len(),
{
    if a.len() > 0 && b.len() > 0 && c.len() > 0 && a[0] == b[0] && b[0] == c[0] {
        lemma_lex_trans(a.drop_first(), b.drop_first(), c.drop_first());
    }
}

proof fn lemma_lex_sorted_global(v: Seq<Seq<char>>, i: int, j: int)
    requires
        lex_sorted(v),
        0 <= i < j < v.len(),
    ensures
        lex_lt(v[i], v[j]),
    decreases j - i,
{
    if j > i + 1 {
        lemma_lex_sorted_global(v, i, j - 1);
        assert(lex_lt(v[j - 1], v[j]));
        lemma_lex_trans(v[i], v[j - 1], v[j]);
    }
}

proof fn lemma_lex_sorted_unique(a: Seq<Seq<char>>, b: Seq<Seq<char>>)
    requires
        lex_sorted(a),
        lex_sorted(b),
        forall|y: Seq<char>| a.contains(y) <==> b.contains(y),
    ensures
        a == b,
    decreases a.len(),
{
    if a.len() == 0 {
        if b.len() > 0 {
            assert(b.contains(b[0]));
        }
        assert(a =~= b);
    } else {
        assert(a.contains(a[0]));
        assert(b.contains(b[0]));
        let j = choose|j: int| 0 <= j < b.len() && b[j] == a[0];
        let i = choose|i: int| 0 <= i < a.len() && a[i] == b[0];
        if j > 0 {
            lemma_lex_sorted_global(b, 0, j);
            if i > 0 {
                lemma_lex_sorted_global(a, 0, i);
                lemma_lex_trans(a[0], b[0], a[0]);
                lemma_lex_irrefl(a[0]);
            } else {
                lemma_lex_irrefl(a[0]);
            }
        }
        assert(a[0] == b[0]);
        let ra = a.drop_first();
        let rb = b.drop_first();
        assert(lex_sorted(ra)) by {
            assert forall|k: int| 0 <= k < ra.len() - 1 implies lex_lt(#[trigger] ra[k], ra[k + 1]) by {
                assert(lex_lt(a[k + 1], a[k + 2]));
            }
        }
        assert(lex_sorted(rb)) by {
            assert forall|k: int| 0 <= k < rb.len() - 1 implies lex_lt(#[trigger] rb[k], rb[k + 1]) by {
                assert(lex_lt(b[k + 1], b[k + 2]));
            }
        }
        assert forall|y: Seq<char>| ra.contains(y) <==> rb.contains(y) by {
            if ra.contains(y) {
                let k = choose|k: int| 0 <= k < ra.len() && ra[k] == y;
                assert(a[k + 1] == y);
                assert(a.contains(y));
                let m = choose|m: int| 0 <= m < b.len() && b[m] == y;
                lemma_lex_sorted_global(a, 0, k + 1);
                if m == 0 {
                    lemma_lex_irrefl(a[0]);
                }
                assert(rb[m - 1] == y);
            }
            if rb.contains(y) {
                let k = choose|k: int| 0 <= k < rb.len() && rb[k] == y;
                assert(b[k + 1] == y);
                assert(b.contains(y));
                let m = choose|m: int| 0 <= m < a.len() && a[m] == y;
                lemma_lex_sorted_global(b, 0, k + 1);
                if m == 0 {
                    lemma_lex_irrefl(b[0]);
                }
                assert(ra[m - 1] == y);
            }
        }
        lemma_lex_sorted_unique(ra, rb);
        assert(a.len() == b.len());
        assert forall|k: int| 0 <= k < a.len() implies a[k] == b[k] by {
            if k > 0 {
                assert(a[k] == ra[k - 1] && b[k] == rb[k - 1]);
            }
        }
        assert(a =~= b);
    }
}

/// The names of `c`, each once, in increasing order.
pub open spec fn sorted_names(c: Seq<Seq<char>>) -> Seq<Seq<char>> {
    choose|t: Seq<Seq<char>>| lex_sorted(t) && forall|y: Seq<char>| t.contains(y) <==> c.contains(y)
}

proof fn lemma_sorted_names(t: Seq<Seq<char>>, c: Seq<Seq<char>>)
    requires
        lex_sorted(t),
        forall|y: Seq<char>| t.contains(y) <==> c.contains(y),
    ensures
        sorted_names(c) == t,
{
    let s = sorted_names(c);
    assert(lex_sorted(s) && forall|y: Seq<char>| s.contains(y) <==> c.contains(y));
    lemma_lex_sorted_unique(s, t);
}

#[derive(Clone, Copy, Debug, Eq, PartialEq)]
pub enum ResubstitutionAction<'a> {
    TrySubstitute { source: &'a str, target: &'a str },
    CollapseSourceIntoFanout { source: &'a str, fanout: &'a str },
    DeleteSourceIfFanoutless(&'a str),
}

/// A resubstitution step as a value.
pub enum ResubStep {
    Try(Seq<char>, Seq<char>),
    Collapse(Seq<char>, Seq<char>),
    Delete(Seq<char>),
}

pub open spec fn resub_step_view<'a>(a: ResubstitutionAction<'a>) -> ResubStep {
    match a {
        ResubstitutionAction::TrySubstitute { source, target } => ResubStep::Try(source@, target@),
        ResubstitutionAction::CollapseSourceIntoFanout { source, fanout } => ResubStep::Collapse(source@, fanout@),
        ResubstitutionAction::DeleteSourceIfFanoutless(source) => ResubStep::Delete(source@),
    }
}

pub open spec fn resub_steps<'a>(v: Seq<ResubstitutionAction<'a>>) -> Seq<ResubStep> {
    Seq::new(v.len(), |i: int| resub_step_view(v[i]))
}

/// The substitution attempts into the first `k` targets that have fewer
/// than two fanouts.
pub open spec fn try_steps<'a>(nodes: Seq<ResubNode<'a>>, source: Seq<char>, ts: Seq<Seq<char>>, k: nat)
    -> Result<Seq<ResubStep>, SpeedFailure>
    decreases k,
{
    if k == 0 {
        Ok(seq![])
    } else {
        match try_steps(nodes, source, ts, (k - 1) as nat) {
            Err(e) => Err(e),
            Ok(a) => {
                let t = ts[k - 1];
                let q = resub_pos(nodes, t);
                if q < 0 {
                    Err(SpeedFailure::UnknownNode(t))
                } else if nodes[q].fanouts@.len() < 2 {
                    Ok(a.push(ResubStep::Try(source, t)))
                } else {
                    Ok(a)
                }
            },
        }
    }
}

/// The resubstitution plan of a source: an attempt into each target with
/// fewer than two fanouts; then, for a source with at most one fanin, its
/// collapse into each fanout and its deletion once fanout-free.
pub open spec fn resub_plan<'a>(nodes: Seq<ResubNode<'a>>, source: Seq<char>, excluded: Option<Seq<&'a str>>)
    -> Result<Seq<ResubStep>, SpeedFailure> {
    let p = resub_pos(nodes, source);
    if p < 0 {
        Err(SpeedFailure::UnknownNode(source))
    } else {
        match targets_result(nodes, source, excluded) {
            Err(e) => Err(e),
            Ok(c) => {
                let ts = sorted_names(c);
                match try_steps(nodes, source, ts, ts.len()) {
                    Err(e) => Err(e),
                    Ok(a) => {
                        let s = nodes[p];
                        if s.fanins@.len() <= 1 {
                            Ok(a + Seq::new(s.fanouts@.len(), |i: int| ResubStep::Collapse(source, s.fanouts@[i]@))
                                + seq![ResubStep::Delete(source)])
                        } else {
                            Ok(a)
                        }
                    },
                }
            },
        }
    }
}

proof fn lemma_try_steps_err<'a>(nodes: Seq<ResubNode<'a>>, source: Seq<char>, ts: Seq<Seq<char>>, k: nat, m: nat)
    requires
        k <= m,
        try_steps(nodes, source, ts, k) is Err,
    ensures
        try_steps(nodes, source, ts, m) == try_steps(nodes, source, ts, k),
    decreases m - k,
{
    if k < m {
        lemma_try_steps_err(nodes, source, ts, k, (m - 1) as nat);
    }
}

pub fn plan_resubstitution_attempts<'a>(source: &'a str, nodes: &[ResubNode<'a>], excluded: Option<&[&'a str]>)
    -> (r: Result<Vec<ResubstitutionAction<'a>>, SpeedUpError>)
    ensures
        match resub_plan(nodes@, source@, match excluded { Some(e) => Some(e@), None => None }) {
            Ok(steps) => r matches Ok(v) && resub_steps(v@) == steps,
            Err(f) => r matches Err(e) && e.failure() == f,
        },
{
    let ghost ex = match excluded { Some(e) => Some(e@), None => None };
    let ghost ns = nodes@;
    let p = match find_resub(nodes, source) {
        None => {
            return Err(unknown_node(source));
        },
        Some(p) => p,
    };
    let tr = algebraic_resubstitution_targets(source, nodes, excluded);
    if tr.is_err() {
        let e = tr.unwrap_err();
        return Err(e);
    }
    let targets = tr.unwrap();
    assert(targets_result(ns, source@, ex) is Ok);
    let ghost c = match targets_result(ns, source@, ex) { Ok(c) => c, Err(_) => seq![] };
    assert(targets_result(ns, source@, ex) == Ok::<Seq<Seq<char>>, SpeedFailure>(c));
    assert(names(targets@) == sorted_names(c));
    let ghost ts = names(targets@);
    let mut actions: Vec<ResubstitutionAction<'a>> = Vec::new();
    assert(resub_steps(actions@) =~= Seq::<ResubStep>::empty());
    for k in 0..targets.len()
        invariant
            ns == nodes@,
            p as int == resub_pos(ns, source@),
            p < ns.len(),
            ex == (match excluded { Some(e) => Some(e@), None => None }),
            ts == names(targets@),
            ts == sorted_names(c),
            targets_result(ns, source@, ex) == Ok::<Seq<Seq<char>>, SpeedFailure>(c),
            try_steps(ns, source@, ts, k as nat) == Ok::<Seq<ResubStep>, SpeedFailure>(resub_steps(actions@)),
    {
        let target = targets[k];
        assert(ts[k as int] == target@);
        let q = match find_resub(nodes, target) {
            None => {
                proof {
                    lemma_try_steps_err(ns, source@, ts, (k + 1) as nat, ts.len());
                }
                return Err(unknown_node(target));
            },
            Some(q) => q,
        };
        if nodes[q].fanouts.len() < 2 {
            let ghost before = actions@;
            actions.push(ResubstitutionAction::TrySubstitute { source, target });
            assert(resub_steps(actions@) =~= resub_steps(before).push(ResubStep::Try(source@, target@)));
        }
    }
    let s = &nodes[p];
    if s.fanins.len() <= 1 {
        let ghost base = resub_steps(actions@);
        for j in 0..s.fanouts.len()
            invariant
                *s == ns[p as int],
                resub_steps(actions@) == base + Seq::new(j as nat, |i: int| ResubStep::Collapse(source@, s.fanouts@[i]@)),
        {
            let ghost before = actions@;
            actions.push(ResubstitutionAction::CollapseSourceIntoFanout { source, fanout: s.fanouts[j] });
            assert(resub_steps(actions@) =~= resub_steps(before).push(ResubStep::Collapse(source@, s.fanouts@[j as int]@)));
            assert(resub_steps(actions@) =~= base + Seq::new((j + 1) as nat, |i: int| ResubStep::Collapse(source@, s.fanouts@[i]@)));
        }
        let ghost before = actions@;
        actions.push(ResubstitutionAction::DeleteSourceIfFanoutless(source));
        assert(resub_steps(actions@) =~= resub_steps(before).push(ResubStep::Delete(source@)));
    }
    Ok(actions)
}


#[derive(Clone, Copy, Debug, Eq, PartialEq, Structural)]
pub struct CutsetWeight {
    pub best_technique: usize,
}

#[derive(Clone, Debug, Eq, PartialEq)]
pub struct CutsetNode<'a> {
    pub id: &'a str,
    pub fanins: Vec<&'a str>,
}

/// The nodes of a cutset with their fanins, the weight of each node when
/// weights are known, and the local transforms the weights refer to.
#[derive(Clone, Debug)]
pub struct CutsetOrderContext<'a> {
    pub nodes: Vec<CutsetNode<'a>>,
    pub weights: Option<Vec<(&'a str, CutsetWeight)>>,
    pub transforms: Vec<CutsetTransformType>,
}

/// The position of the last node named `id`, or -1.
pub open spec fn cut_pos<'a>(nodes: Seq<CutsetNode<'a>>, id: Seq<char>) -> int
    decreases nodes.len(),
{
    if nodes.len() == 0 {
        -1
    } else if nodes.last().id@ == id {
        nodes.len() - 1
    } else {
        cut_pos(nodes.drop_last(), id)
    }
}

proof fn lemma_cut_pos<'a>(nodes: Seq<CutsetNode<'a>>, id: Seq<char>)
    ensures
        -1 <= cut_pos(nodes, id) < nodes.len(),
        cut_pos(nodes, id) >= 0 ==> nodes[cut_pos(nodes, id)].id@ == id,
    decreases nodes.len(),
{
    if nodes.len() > 0 && nodes.last().id@ != id {
        lemma_cut_pos(nodes.drop_last(), id);
    }
}

fn find_cut<'a>(nodes: &Vec<CutsetNode<'a>>, id: &str) -> (r: Option<usize>)
    ensures
        match r {
            Some(i) => i < nodes@.len() && i as int == cut_pos(nodes@, id@),
            None => cut_pos(nodes@, id@) == -1,
        },
{
    let mut k = nodes.len();
    assert(nodes@.take(k as int) =~= nodes@);
    while k > 0
        invariant
            k <= nodes@.len(),
            cut_pos(nodes@, id@) == cut_pos(nodes@.take(k as int), id@),
        decreases k,
    {
        assert(nodes@.take(k as int).last() == nodes@[k - 1]);
        if str_eq(nodes[k - 1].id, id) {
            return Some(k - 1);
        }
        assert(nodes@.take(k as int).drop_last() =~= nodes@.take(k - 1));
        k = k - 1;
    }
    None
}

/// The weight of the last entry for `id`.
pub open spec fn weight_of<'a>(ws: Seq<(&'a str, CutsetWeight)>, id: Seq<char>) -> Option<CutsetWeight>
    decreases ws.len(),
{
    if ws.len() == 0 {
        None
    } else if ws.last().0@ == id {
        Some(ws.last().1)
    } else {
        weight_of(ws.drop_last(), id)
    }
}

fn find_weight<'a>(ws: &Vec<(&'a str, CutsetWeight)>, id: &str) -> (r: Option<CutsetWeight>)
    ensures
        r == weight_of(ws@, id@),
{
    let mut k = ws.len();
    assert(ws@.take(k as int) =~= ws@);
    while k > 0
        invariant
            k <= ws@.len(),
            weight_of(ws@, id@) == weight_of(ws@.take(k as int), id@),
        decreases k,
    {
        assert(ws@.take(k as int).last() == ws@[k - 1]);
        if str_eq(ws[k - 1].0, id) {
            return Some(ws[k - 1].1);
        }
        assert(ws@.take(k as int).drop_last() =~= ws@.take(k - 1));
        k = k - 1;
    }
    None
}

/// How two cutset nodes compare by the transforms chosen for them.
pub enum TechniqueOrder {
    FaninBased,
    FanoutBased,
    FanoutFirst,
    FaninFirst,
}

/// The comparison by technique: fanin based without weights; else by the
/// best transforms of the two nodes, a node optimized by a fanout-based
/// transform coming first.
pub open spec fn technique_of<'a>(ctx_weights: Option<Seq<(&'a str, CutsetWeight)>>, transforms: Seq<CutsetTransformType>, n1: Seq<char>, n2: Seq<char>)
    -> Result<TechniqueOrder, SpeedFailure> {
    match ctx_weights {
        None => Ok(TechniqueOrder::FaninBased),
        Some(ws) => match weight_of(ws, n1) {
            None => Err(SpeedFailure::MissingWeight(n1)),
            Some(w1) => match weight_of(ws, n2) {
                None => Err(SpeedFailure::MissingWeight(n2)),
                Some(w2) => if w1.best_technique >= transforms.len() {
                    Err(SpeedFailure::MissingTransform(w1.best_technique))
                } else if w2.best_technique >= transforms.len() {
                    Err(SpeedFailure::MissingTransform(w2.best_technique))
                } else {
                    let f1 = transforms[w1.best_technique as int] == CutsetTransformType::Clp;
                    let f2 = transforms[w2.best_technique as int] == CutsetTransformType::Clp;
                    if !f1 && !f2 {
                        Ok(TechniqueOrder::FanoutBased)
                    } else if f1 && f2 {
                        Ok(TechniqueOrder::FaninBased)
                    } else if !f1 {
                        Ok(TechniqueOrder::FanoutFirst)
                    } else {
                        Ok(TechniqueOrder::FaninFirst)
                    }
                },
            },
        },
    }
}

/// A depth-first search through fanins: the names still to visit, the
/// nodes visited (by position), and the outcome once known.
pub struct DfsState {
    pub stack: Seq<Seq<char>>,
    pub marks: Seq<bool>,
    pub done: Option<Result<bool, SpeedFailure>>,
}

/// One step: the last name is taken; the target ends the search; a node
/// not yet visited is visited and its fanins pushed.
pub open spec fn dfs_step<'a>(nodes: Seq<CutsetNode<'a>>, target: Seq<char>, st: DfsState) -> DfsState {
    if st.done is Some {
        st
    } else if st.stack.len() == 0 {
        DfsState { done: Some(Ok(false)), ..st }
    } else {
        let x = st.stack.last();
        let rest = st.stack.drop_last();
        let p = cut_pos(nodes, x);
        if x == target {
            DfsState { stack: rest, marks: st.marks, done: Some(Ok(true)) }
        } else if p >= 0 && st.marks[p] {
            DfsState { stack: rest, ..st }
        } else if p < 0 {
            DfsState { stack: rest, marks: st.marks, done: Some(Err(SpeedFailure::UnknownNode(x))) }
        } else {
            DfsState { stack: rest + names(nodes[p].fanins@), marks: st.marks.update(p, true), done: None }
        }
    }
}

pub open spec fn dfs_run<'a>(nodes: Seq<CutsetNode<'a>>, target: Seq<char>, st: DfsState, k: nat) -> DfsState
    decreases k,
{
    if k == 0 {
        st
    } else {
        dfs_step(nodes, target, dfs_run(nodes, target, st, (k - 1) as nat))
    }
}

/// The total number of fanins.
pub open spec fn total_fanins<'a>(nodes: Seq<CutsetNode<'a>>) -> nat
    decreases nodes.len(),
{
    if nodes.len() == 0 { 0 } else { total_fanins(nodes.drop_last()) + nodes.last().fanins@.len() }
}

/// The fanins of the visited nodes.
pub open spec fn marked_fanins<'a>(nodes: Seq<CutsetNode<'a>>, marks: Seq<bool>, k: nat) -> nat
    decreases k,
{
    if k == 0 {
        0
    } else {
        marked_fanins(nodes, marks, (k - 1) as nat) + (if marks[k - 1] { nodes[k - 1].fanins@.len() } else { 0 })
    }
}

/// The search's start: the given names to visit, nothing visited.
pub open spec fn dfs_init<'a>(nodes: Seq<CutsetNode<'a>>, stack: Seq<Seq<char>>) -> DfsState {
    DfsState { stack, marks: Seq::new(nodes.len(), |i: int| false), done: None }
}

/// Whether `target` is reached from the fanins of `source`, by the search
/// above; the search ends within as many steps as names can be pushed.
pub open spec fn reach_result<'a>(nodes: Seq<CutsetNode<'a>>, source: Seq<char>, target: Seq<char>) -> Result<bool, SpeedFailure> {
    let p = cut_pos(nodes, source);
    if p < 0 {
        Err(SpeedFailure::UnknownNode(source))
    } else {
        let init = names(nodes[p].fanins@);
        match dfs_run(nodes, target, dfs_init(nodes, init), init.len() + total_fanins(nodes) + 1).done {
            Some(r) => r,
            None => Ok(false),
        }
    }
}


proof fn lemma_marked_le<'a>(nodes: Seq<CutsetNode<'a>>, marks: Seq<bool>, k: nat)
    requires
        k <= nodes.len(),
    ensures
        marked_fanins(nodes, marks, k) <= total_fanins(nodes.take(k as int)),
    decreases k,
{
    if k > 0 {
        lemma_marked_le(nodes, marks, (k - 1) as nat);
        assert(nodes.take(k as int).drop_last() =~= nodes.take(k - 1));
        assert(nodes.take(k as int).last() == nodes[k - 1]);
    }
}

proof fn lemma_marked_mark<'a>(nodes: Seq<CutsetNode<'a>>, marks: Seq<bool>, p: int, k: nat)
    requires
        0 <= p < marks.len(),
        k <= marks.len(),
        !marks[p],
    ensures
        marked_fanins(nodes, marks.update(p, true), k) == marked_fanins(nodes, marks, k)
            + (if p < k { nodes[p].fanins@.len() } else { 0 }),
    decreases k,
{
    if k > 0 {
        lemma_marked_mark(nodes, marks, p, (k - 1) as nat);
    }
}

proof fn lemma_dfs_stays<'a>(nodes: Seq<CutsetNode<'a>>, target: Seq<char>, st: DfsState, k: nat, m: nat)
    requires
        k <= m,
        dfs_run(nodes, target, st, k).done is Some,
    ensures
        dfs_run(nodes, target, st, m) == dfs_run(nodes, target, st, k),
    decreases m - k,
{
    if k < m {
        lemma_dfs_stays(nodes, target, st, k, (m - 1) as nat);
    }
}

fn reaches_fanin<'a>(source: &str, target: &str, nodes: &Vec<CutsetNode<'a>>) -> (r: Result<bool, SpeedUpError>)
    ensures
        match reach_result(nodes@, source@, target@) {
            Ok(b) => r == Ok::<bool, SpeedUpError>(b),
            Err(f) => r matches Err(e) && e.failure() == f,
        },
{
    let ghost ns = nodes@;
    let p = match find_cut(nodes, source) {
        None => {
            return Err(unknown_node(source));
        },
        Some(p) => p,
    };
    let n = nodes.len();
    let mut stack: Vec<&'a str> = Vec::new();
    let src = &nodes[p];
    for j in 0..src.fanins.len()
        invariant
            stack@ == src.fanins@.take(j as int),
    {
        stack.push(src.fanins[j]);
        assert(src.fanins@.take(j + 1) =~= src.fanins@.take(j as int).push(src.fanins@[j as int]));
    }
    assert(src.fanins@.take(src.fanins@.len() as int) =~= src.fanins@);
    let mut marks: Vec<bool> = Vec::new();
    for i in 0..n
        invariant
            marks@.len() == i,
            forall|j: int| 0 <= j < i ==> !(#[trigger] marks@[j]),
    {
        marks.push(false);
    }
    let ghost init_names = names(src.fanins@);
    let ghost init = dfs_init(ns, init_names);
    let ghost bound = init_names.len() + total_fanins(ns) + 1;
    assert(marks@ =~= init.marks);
    assert(marked_fanins(ns, marks@, n as nat) == 0) by {
        assert forall|k: nat| k <= n implies marked_fanins(ns, marks@, k) == 0 by {
            lemma_marked_zero(ns, marks@, k);
        }
    }
    let ghost mut k: nat = 0;
    while stack.len() > 0
        invariant
            ns == nodes@,
            n == ns.len(),
            p as int == cut_pos(ns, source@),
            init == dfs_init(ns, init_names),
            init_names == names(ns[p as int].fanins@),
            bound == init_names.len() + total_fanins(ns) + 1,
            marks@.len() == n,
            dfs_run(ns, target@, init, k) == (DfsState { stack: names(stack@), marks: marks@, done: None }),
            k + stack@.len() == init_names.len() + marked_fanins(ns, marks@, n as nat),
            marked_fanins(ns, marks@, n as nat) <= total_fanins(ns),
        decreases (total_fanins(ns) - marked_fanins(ns, marks@, n as nat)) + stack@.len(),
    {
        let ghost st = dfs_run(ns, target@, init, k);
        let x = stack.pop().unwrap();
        let ghost rest = stack@;
        assert(names(rest.push(x)) =~= names(rest).push(x@));
        assert(st.stack.last() == x@ && st.stack.drop_last() =~= names(rest));
        proof {
            k = k + 1;
        }
        assert(dfs_run(ns, target@, init, k) == dfs_step(ns, target@, st));
        if str_eq(x, target) {
            proof {
                lemma_dfs_stays(ns, target@, init, k, bound);
            }
            return Ok(true);
        }
        let q = match find_cut(nodes, x) {
            None => {
                proof {
                    lemma_dfs_stays(ns, target@, init, k, bound);
                }
                return Err(unknown_node(x));
            },
            Some(q) => q,
        };
        if !marks[q] {
            proof {
                lemma_marked_mark(ns, marks@, q as int, n as nat);
                lemma_marked_le(ns, marks@.update(q as int, true), n as nat);
                assert(ns.take(n as int) =~= ns);
            }
            marks.set(q, true);
            let fan = &nodes[q].fanins;
            let ghost base = stack@;
            for j in 0..fan.len()
                invariant
                    stack@ == base + fan@.take(j as int),
            {
                stack.push(fan[j]);
                assert(fan@.take(j + 1) =~= fan@.take(j as int).push(fan@[j as int]));
                assert(stack@ =~= base + fan@.take(j + 1));
            }
            assert(fan@.take(fan@.len() as int) =~= fan@);
            assert(names(stack@) =~= names(base) + names(fan@));
        }
    }
    let ghost st = dfs_run(ns, target@, init, k);
    assert(names(stack@) =~= Seq::<Seq<char>>::empty());
    proof {
        k = k + 1;
        lemma_dfs_stays(ns, target@, init, k, bound);
    }
    Ok(false)
}

proof fn lemma_marked_zero<'a>(nodes: Seq<CutsetNode<'a>>, marks: Seq<bool>, k: nat)
    requires
        k <= marks.len(),
        forall|j: int| 0 <= j < marks.len() ==> !marks[j],
    ensures
        marked_fanins(nodes, marks, k) == 0,
    decreases k,
{
    if k > 0 {
        lemma_marked_zero(nodes, marks, (k - 1) as nat);
    }
}


/// An order between two cutset nodes.
pub enum CutOrder {
    Less,
    Equal,
    Greater,
}

pub open spec fn order_of(o: std::cmp::Ordering) -> CutOrder {
    match o {
        std::cmp::Ordering::Less => CutOrder::Less,
        std::cmp::Ordering::Equal => CutOrder::Equal,
        std::cmp::Ordering::Greater => CutOrder::Greater,
    }
}

pub open spec fn weights_view<'a>(w: Option<Vec<(&'a str, CutsetWeight)>>) -> Option<Seq<(&'a str, CutsetWeight)>> {
    match w {
        Some(v) => Some(v@),
        None => None,
    }
}

/// How two cutset nodes are ordered: by technique when exactly one of them
/// is optimized by a fanout-based transform (it comes first); else a node
/// in the other's transitive fanin comes after it for fanin-based
/// transforms and before it for fanout-based ones; else they are equal.
pub open spec fn compare_result<'a>(ctx: CutsetOrderContext<'a>, n1: Seq<char>, n2: Seq<char>) -> Result<CutOrder, SpeedFailure> {
    match technique_of(weights_view(ctx.weights), ctx.transforms@, n1, n2) {
        Err(e) => Err(e),
        Ok(TechniqueOrder::FanoutFirst) => Ok(CutOrder::Less),
        Ok(TechniqueOrder::FaninFirst) => Ok(CutOrder::Greater),
        Ok(t) => {
            let fanin_based = t is FaninBased;
            match reach_result(ctx.nodes@, n1, n2) {
                Err(e) => Err(e),
                Ok(true) => Ok(if fanin_based { CutOrder::Less } else { CutOrder::Greater }),
                Ok(false) => match reach_result(ctx.nodes@, n2, n1) {
                    Err(e) => Err(e),
                    Ok(true) => Ok(if fanin_based { CutOrder::Greater } else { CutOrder::Less }),
                    Ok(false) => Ok(CutOrder::Equal),
                },
            }
        },
    }
}

fn technique<'a>(node1: &str, node2: &str, context: &CutsetOrderContext<'a>) -> (r: Result<TechniqueKind, SpeedUpError>)
    ensures
        match technique_of(weights_view(context.weights), context.transforms@, node1@, node2@) {
            Ok(t) => r matches Ok(k) && kind_view(k) == t,
            Err(f) => r matches Err(e) && e.failure() == f,
        },
{
    match &context.weights {
        None => Ok(TechniqueKind::FaninBased),
        Some(ws) => {
            let w1 = match find_weight(ws, node1) {
                None => {
                    return Err(SpeedUpError::MissingWeight(node1.to_owned()));
                },
                Some(w) => w,
            };
            let w2 = match find_weight(ws, node2) {
                None => {
                    return Err(SpeedUpError::MissingWeight(node2.to_owned()));
                },
                Some(w) => w,
            };
            if w1.best_technique >= context.transforms.len() {
                return Err(SpeedUpError::MissingTransform(w1.best_technique));
            }
            if w2.best_technique >= context.transforms.len() {
                return Err(SpeedUpError::MissingTransform(w2.best_technique));
            }
            let f1 = context.transforms[w1.best_technique].fanin_based();
            let f2 = context.transforms[w2.best_technique].fanin_based();
            if !f1 && !f2 {
                Ok(TechniqueKind::FanoutBased)
            } else if f1 && f2 {
                Ok(TechniqueKind::FaninBased)
            } else if !f1 {
                Ok(TechniqueKind::FanoutFirst)
            } else {
                Ok(TechniqueKind::FaninFirst)
            }
        },
    }
}

#[derive(Clone, Copy, PartialEq, Eq, Structural)]
enum TechniqueKind {
    FaninBased,
    FanoutBased,
    FanoutFirst,
    FaninFirst,
}

spec fn kind_view(k: TechniqueKind) -> TechniqueOrder {
    match k {
        TechniqueKind::FaninBased => TechniqueOrder::FaninBased,
        TechniqueKind::FanoutBased => TechniqueOrder::FanoutBased,
        TechniqueKind::FanoutFirst => TechniqueOrder::FanoutFirst,
        TechniqueKind::FaninFirst => TechniqueOrder::FaninFirst,
    }
}

/// Compares two cutset nodes (see [`compare_result`]).
pub fn compare_cutset_nodes<'a>(node1: &str, node2: &str, context: &CutsetOrderContext<'a>)
    -> (r: Result<std::cmp::Ordering, SpeedUpError>)
    ensures
        match compare_result(*context, node1@, node2@) {
            Ok(o) => r matches Ok(x) && order_of(x) == o,
            Err(f) => r matches Err(e) && e.failure() == f,
        },
{
    let t = match technique(node1, node2, context) {
        Err(e) => {
            return Err(e);
        },
        Ok(t) => t,
    };
    if t == TechniqueKind::FanoutFirst {
        return Ok(std::cmp::Ordering::Less);
    }
    if t == TechniqueKind::FaninFirst {
        return Ok(std::cmp::Ordering::Greater);
    }
    let fanin_based = t == TechniqueKind::FaninBased;
    match reaches_fanin(node1, node2, &context.nodes) {
        Err(e) => {
            return Err(e);
        },
        Ok(true) => {
            return Ok(if fanin_based { std::cmp::Ordering::Less } else { std::cmp::Ordering::Greater });
        },
        Ok(false) => {},
    }
    match reaches_fanin(node2, node1, &context.nodes) {
        Err(e) => Err(e),
        Ok(true) => Ok(if fanin_based { std::cmp::Ordering::Greater } else { std::cmp::Ordering::Less }),
        Ok(false) => Ok(std::cmp::Ordering::Equal),
    }
}


/// Whether `a` sorts strictly before `b`.
pub open spec fn less_result<'a>(ctx: CutsetOrderContext<'a>, a: Seq<char>, b: Seq<char>) -> Result<bool, SpeedFailure> {
    match compare_result(ctx, a, b) {
        Ok(o) => Ok(o is Less),
        Err(f) => Err(f),
    }
}

/// Where `x` goes among the first `j` entries of the sorted prefix `done`,
/// scanning down while it sorts strictly before the entry to its left,
/// with the failure of the comparison that stopped the scan.
pub open spec fn insert_scan<'a>(ctx: CutsetOrderContext<'a>, done: Seq<Seq<char>>, x: Seq<char>, j: nat)
    -> (nat, Option<SpeedFailure>)
    decreases j,
{
    if j == 0 {
        (0, None)
    } else {
        match less_result(ctx, x, done[j - 1]) {
            Ok(true) => insert_scan(ctx, done, x, (j - 1) as nat),
            Ok(false) => (j, None),
            Err(f) => (j, Some(f)),
        }
    }
}

/// Insertion sort of `s`, and the failure of the last comparison that
/// failed, if any.
pub open spec fn sort_run<'a>(ctx: CutsetOrderContext<'a>, s: Seq<Seq<char>>) -> (Seq<Seq<char>>, Option<SpeedFailure>)
    decreases s.len(),
{
    if s.len() == 0 {
        (Seq::empty(), None)
    } else {
        let prev = sort_run(ctx, s.drop_last());
        let step = insert_scan(ctx, prev.0, s.last(), prev.0.len());
        (prev.0.insert(step.0 as int, s.last()), if step.1 is Some { step.1 } else { prev.1 })
    }
}

/// `s[k]` is the first node of `s` that the context does not know.
pub open spec fn first_unknown_at<'a>(nodes: Seq<CutsetNode<'a>>, s: Seq<Seq<char>>, k: int) -> bool {
    &&& 0 <= k < s.len()
    &&& cut_pos(nodes, s[k]) == -1
    &&& forall|i: int| 0 <= i < k ==> cut_pos(nodes, #[trigger] s[i]) != -1
}

/// The revised order of a cutset: the first unknown node is an error;
/// otherwise the cutset sorted by [`compare_result`] with an insertion
/// sort, a failed comparison counting as equal and the last failure being
/// the error.
pub open spec fn revised_order_result<'a>(ctx: CutsetOrderContext<'a>, s: Seq<Seq<char>>) -> Result<Seq<Seq<char>>, SpeedFailure> {
    if exists|k: int| first_unknown_at(ctx.nodes@, s, k) {
        Err(SpeedFailure::UnknownNode(s[choose|k: int| first_unknown_at(ctx.nodes@, s, k)]))
    } else {
        match sort_run(ctx, s).1 {
            Some(f) => Err(f),
            None => Ok(sort_run(ctx, s).0),
        }
    }
}

pub open spec fn err_view(e: Option<SpeedUpError>) -> Option<SpeedFailure> {
    match e {
        Some(x) => Some(x.failure()),
        None => None,
    }
}

proof fn lemma_insert_scan_le<'a>(ctx: CutsetOrderContext<'a>, done: Seq<Seq<char>>, x: Seq<char>, j: nat)
    ensures
        insert_scan(ctx, done, x, j).0 <= j,
    decreases j,
{
    if j > 0 {
        lemma_insert_scan_le(ctx, done, x, (j - 1) as nat);
    }
}

proof fn lemma_sort_run_len<'a>(ctx: CutsetOrderContext<'a>, s: Seq<Seq<char>>)
    ensures
        sort_run(ctx, s).0.len() == s.len(),
    decreases s.len(),
{
    if s.len() > 0 {
        lemma_sort_run_len(ctx, s.drop_last());
        let prev = sort_run(ctx, s.drop_last());
        lemma_insert_scan_le(ctx, prev.0, s.last(), prev.0.len());
    }
}

/// Revising the order of a cutset only reorders it: what comes out holds
/// each node as many times as the cutset does.
pub proof fn lemma_revised_order_is_permutation<'a>(ctx: CutsetOrderContext<'a>, s: Seq<Seq<char>>)
    ensures
        sort_run(ctx, s).0.to_multiset() == s.to_multiset(),
        revised_order_result(ctx, s) matches Ok(d) ==> d.to_multiset() == s.to_multiset(),
    decreases s.len(),
{
    broadcast use vstd::seq_lib::to_multiset_insert, vstd::seq_lib::to_multiset_build;
    if s.len() > 0 {
        lemma_revised_order_is_permutation(ctx, s.drop_last());
        let prev = sort_run(ctx, s.drop_last());
        lemma_sort_run_len(ctx, s.drop_last());
        let step = insert_scan(ctx, prev.0, s.last(), prev.0.len());
        lemma_insert_scan_le(ctx, prev.0, s.last(), prev.0.len());
        assert(sort_run(ctx, s).0 == prev.0.insert(step.0 as int, s.last()));
        assert(prev.0.insert(step.0 as int, s.last()).to_multiset() == prev.0.to_multiset().insert(s.last()));
        assert(s =~= s.drop_last().push(s.last()));
        assert(s.drop_last().push(s.last()).to_multiset() == s.drop_last().to_multiset().insert(s.last()));
    } else {
        assert(s =~= Seq::<Seq<char>>::empty());
        assert(sort_run(ctx, s).0 =~= Seq::<Seq<char>>::empty());
    }
}

fn sorts_before<'a>(x: &str, y: &str, context: &CutsetOrderContext<'a>) -> (r: Result<bool, SpeedUpError>)
    ensures
        match less_result(*context, x@, y@) {
            Ok(b) => r matches Ok(c) && c == b,
            Err(f) => r matches Err(e) && e.failure() == f,
        },
{
    match compare_cutset_nodes(x, y, context) {
        Err(e) => Err(e),
        Ok(std::cmp::Ordering::Less) => Ok(true),
        Ok(_) => Ok(false),
    }
}

/// Sorts a cutset by [`compare_cutset_nodes`] after checking that the
/// context knows each of its nodes (see [`revised_order_result`]).
pub fn generate_revised_order<'a>(cutset: &[&'a str], context: &CutsetOrderContext<'a>)
    -> (r: Result<Vec<&'a str>, SpeedUpError>)
    ensures
        match revised_order_result(*context, names(cutset@)) {
            Ok(d) => r matches Ok(v) && names(v@) == d,
            Err(f) => r matches Err(e) && e.failure() == f,
        },
{
    let ghost s = names(cutset@);
    for k in 0..cutset.len()
        invariant
            s == names(cutset@),
            forall|i: int| 0 <= i < k ==> cut_pos(context.nodes@, #[trigger] s[i]) != -1,
    {
        assert(s[k as int] == cutset@[k as int]@);
        if find_cut(&context.nodes, cutset[k]).is_none() {
            assert(first_unknown_at(context.nodes@, s, k as int));
            proof {
                let c = choose|c: int| first_unknown_at(context.nodes@, s, c);
                assert(first_unknown_at(context.nodes@, s, c));
                if c < k {
                    assert(cut_pos(context.nodes@, s[c]) != -1);
                } else if c > k {
                    assert(cut_pos(context.nodes@, s[k as int]) != -1);
                }
            }
            return Err(unknown_node(cutset[k]));
        }
    }
    assert(!exists|k: int| first_unknown_at(context.nodes@, s, k));
    let mut out: Vec<&'a str> = Vec::new();
    let mut err: Option<SpeedUpError> = None;
    for i in 0..cutset.len()
        invariant
            s == names(cutset@),
            s.len() == cutset@.len(),
            names(out@) == sort_run(*context, s.take(i as int)).0,
            err_view(err) == sort_run(*context, s.take(i as int)).1,
    {
        let x = cutset[i];
        let ghost t = s.take(i + 1);
        assert(t.drop_last() =~= s.take(i as int));
        assert(t.last() == x@);
        let ghost d = names(out@);
        proof {
            lemma_sort_run_len(*context, s.take(i as int));
        }
        let mut j: usize = out.len();
        let mut stop: Option<SpeedUpError> = None;
        while j > 0
            invariant_except_break
                stop is None,
                insert_scan(*context, d, x@, d.len()) == insert_scan(*context, d, x@, j as nat),
            invariant
                j <= out@.len(),
                names(out@) == d,
                d.len() == out@.len(),
            ensures
                j <= out@.len(),
                names(out@) == d,
                insert_scan(*context, d, x@, d.len()) == (j as nat, err_view(stop)),
            decreases j,
        {
            assert(d[j - 1] == out@[j - 1]@);
            match sorts_before(x, out[j - 1], context) {
                Ok(true) => {
                    j = j - 1;
                },
                Ok(false) => {
                    break;
                },
                Err(e) => {
                    stop = Some(e);
                    break;
                },
            }
        }
        out.insert(j, x);
        assert(names(out@) =~= d.insert(j as int, x@));
        if stop.is_some() {
            err = stop;
        }
    }
    assert(s.take(cutset.len() as int) =~= s);
    match err {
        Some(e) => Err(e),
        None => Ok(out),
    }
}


/// The integer and boolean options of the speed-up.
#[derive(Clone, Copy, Debug, Eq, PartialEq, Structural)]
pub struct SpeedFlags {
    pub model: DelayModel,
    pub new_mode: bool,
    pub interactive: bool,
    pub add_inv: bool,
    pub debug: bool,
    pub del_crit_cubes: bool,
    pub area_reclaim: bool,
    pub num_tries: usize,
}

impl Default for SpeedFlags {
    fn default() -> (r: Self)
        ensures
            r == (SpeedFlags {
                model: DelayModel::Unit,
                new_mode: false,
                interactive: false,
                add_inv: false,
                debug: false,
                del_crit_cubes: true,
                area_reclaim: false,
                num_tries: 1,
            }),
    {
        SpeedFlags {
            model: DelayModel::Unit,
            new_mode: false,
            interactive: false,
            add_inv: false,
            debug: false,
            del_crit_cubes: true,
            area_reclaim: false,
            num_tries: 1,
        }
    }
}

#[derive(Clone, Copy, Debug, Eq, PartialEq)]
pub enum InitialDecompAction<N> {
    BypassMappedNetwork,
    AddInvertersToNetwork,
    NetworkCsweep,
    DelayTrace,
    SimplifyNode(N),
    SpeedUpNode { node: N, delay_flag: bool },
    AlgebraicResubstitution,
}

/// The steps of the initial decomposition, the options to run them with,
/// and the options to restore afterwards.
#[derive(Clone, Debug, PartialEq)]
pub struct InitialDecompPlan<N> {
    pub actions: Vec<InitialDecompAction<N>>,
    pub temporary_parameters: SpeedFlags,
    pub restored_parameters: SpeedFlags,
}

/// Each node simplified and then sped up, in order.
pub open spec fn decomp_node_steps<N>(nodes: Seq<N>) -> Seq<InitialDecompAction<N>>
    decreases nodes.len(),
{
    if nodes.len() == 0 {
        Seq::empty()
    } else {
        decomp_node_steps(nodes.drop_last()) + seq![
            InitialDecompAction::SimplifyNode(nodes.last()),
            InitialDecompAction::SpeedUpNode { node: nodes.last(), delay_flag: true },
        ]
    }
}

pub open spec fn bypasses_initial_decomp(p: SpeedFlags) -> bool {
    p.new_mode && p.model == DelayModel::Mapped
}

/// The steps of the initial decomposition: a mapped network in the new
/// mode is bypassed; otherwise the network is swept (or gets its
/// inverters), traced, each node simplified and sped up, resubstituted
/// when reclaiming area, and swept (or given inverters) again.
pub open spec fn initial_decomp_actions<N>(nodes: Seq<N>, p: SpeedFlags) -> Seq<InitialDecompAction<N>> {
    if bypasses_initial_decomp(p) {
        seq![InitialDecompAction::BypassMappedNetwork]
    } else {
        let sweep = if p.add_inv {
            InitialDecompAction::AddInvertersToNetwork
        } else {
            InitialDecompAction::NetworkCsweep
        };
        seq![sweep, InitialDecompAction::DelayTrace] + decomp_node_steps(nodes)
            + (if p.area_reclaim { seq![InitialDecompAction::AlgebraicResubstitution] } else { Seq::empty() })
            + seq![sweep]
    }
}

/// The options the decomposition runs with: a single try, no debugging,
/// critical cubes deleted; unchanged when it is bypassed.
pub open spec fn initial_decomp_flags(p: SpeedFlags) -> SpeedFlags {
    if bypasses_initial_decomp(p) {
        p
    } else {
        SpeedFlags { num_tries: 1, debug: false, del_crit_cubes: true, ..p }
    }
}

fn sweep_action<N>(add_inv: bool) -> (r: InitialDecompAction<N>)
    ensures
        r == if add_inv { InitialDecompAction::<N>::AddInvertersToNetwork } else { InitialDecompAction::<N>::NetworkCsweep },
{
    if add_inv {
        InitialDecompAction::AddInvertersToNetwork
    } else {
        InitialDecompAction::NetworkCsweep
    }
}

/// Plans the initial decomposition of the internal nodes, in depth-first
/// order (see [`initial_decomp_actions`] and [`initial_decomp_flags`]).
pub fn plan_initial_decomp<N: Copy>(internal_dfs_nodes: &[N], params: &SpeedFlags) -> (r: InitialDecompPlan<N>)
    ensures
        r.actions@ == initial_decomp_actions(internal_dfs_nodes@, *params),
        r.temporary_parameters == initial_decomp_flags(*params),
        r.restored_parameters == *params,
{
    let restored_parameters = *params;
    if params.new_mode && params.model == DelayModel::Mapped {
        let mut actions: Vec<InitialDecompAction<N>> = Vec::new();
        actions.push(InitialDecompAction::BypassMappedNetwork);
        assert(actions@ =~= initial_decomp_actions(internal_dfs_nodes@, *params));
        return InitialDecompPlan { actions, temporary_parameters: *params, restored_parameters };
    }
    let temporary_parameters = SpeedFlags { num_tries: 1, debug: false, del_crit_cubes: true, ..*params };
    let mut actions: Vec<InitialDecompAction<N>> = Vec::new();
    actions.push(sweep_action(params.add_inv));
    actions.push(InitialDecompAction::DelayTrace);
    let ghost head = actions@;
    let ghost nodes = internal_dfs_nodes@;
    for i in 0..internal_dfs_nodes.len()
        invariant
            nodes == internal_dfs_nodes@,
            actions@ == head + decomp_node_steps(nodes.take(i as int)),
    {
        let node = internal_dfs_nodes[i];
        actions.push(InitialDecompAction::SimplifyNode(node));
        actions.push(InitialDecompAction::SpeedUpNode { node, delay_flag: true });
        assert(nodes.take(i + 1).drop_last() =~= nodes.take(i as int));
        assert(actions@ =~= head + decomp_node_steps(nodes.take(i + 1)));
    }
    assert(nodes.take(nodes.len() as int) =~= nodes);
    if params.area_reclaim {
        actions.push(InitialDecompAction::AlgebraicResubstitution);
    }
    actions.push(sweep_action(params.add_inv));
    assert(actions@ =~= initial_decomp_actions(internal_dfs_nodes@, *params));
    InitialDecompPlan { actions, temporary_parameters, restored_parameters }
}

} // verus!
