//! The incremental product of transition functions for range computation:
//! the functions are merged two at a time, and each variable is smoothed
//! away as soon as the last functions that depend on it have been merged.
//! Functions are modelled by their supports.

use vstd::prelude::*;
use crate::text::{push_str, push_decimal, decimal};
use crate::bull_util::smallest_outside;

verus! {

#[derive(Clone, Copy, Debug, Eq, PartialEq, Structural)]
pub enum ProductPortDisposition {
    NativeOwnedModel,
}

pub fn product_port_disposition() -> (r: ProductPortDisposition)
    ensures
        r == ProductPortDisposition::NativeOwnedModel,
{
    ProductPortDisposition::NativeOwnedModel
}

pub fn is_product_sis_integration_blocked() -> (r: bool)
    ensures
        !r,
{
    false
}

#[derive(Clone, Debug, Eq, PartialEq)]
pub enum ProductError {
    EmptyTransitionSet,
    VariableOutOfRange { variable: usize, n_vars: usize },
    StateVariableArityMismatch { input_vars: usize, output_vars: usize },
}

/// The message of an error.
pub open spec fn error_text(e: ProductError) -> Seq<char> {
    match e {
        ProductError::EmptyTransitionSet => "product transition set is empty"@,
        ProductError::VariableOutOfRange { variable, n_vars } => "product support variable "@ + decimal(variable as nat)
            + " is outside manager range 0.."@ + decimal(n_vars as nat),
        ProductError::StateVariableArityMismatch { input_vars, output_vars } =>
            "product state input/output variable counts differ: "@ + decimal(input_vars as nat) + " != "@
            + decimal(output_vars as nat),
    }
}

impl ProductError {
    /// The message describing the error.
    pub fn message(&self) -> (r: String)
        ensures
            r@ == error_text(*self),
    {
        let mut s = String::new();
        match self {
            ProductError::EmptyTransitionSet => push_str(&mut s, "product transition set is empty"),
            ProductError::VariableOutOfRange { variable, n_vars } => {
                push_str(&mut s, "product support variable ");
                push_decimal(&mut s, *variable as u64);
                push_str(&mut s, " is outside manager range 0..");
                push_decimal(&mut s, *n_vars as u64);
            },
            ProductError::StateVariableArityMismatch { input_vars, output_vars } => {
                push_str(&mut s, "product state input/output variable counts differ: ");
                push_decimal(&mut s, *input_vars as u64);
                push_str(&mut s, " != ");
                push_decimal(&mut s, *output_vars as u64);
            },
        }
        assert(s@ =~= error_text(*self));
        s
    }
}

/// Strictly increasing: a set of variables in order.
pub open spec fn sorted_set(v: Seq<usize>) -> bool {
    forall|i: int, j: int| 0 <= i < j < v.len() ==> v[i] < v[j]
}

/// Adds `x` to a sorted set.
pub(crate) fn insert_sorted(v: &mut Vec<usize>, x: usize)
    requires
        sorted_set(old(v)@),
    ensures
        sorted_set(final(v)@),
        forall|y: usize| final(v)@.contains(y) <==> (old(v)@.contains(y) || y == x),
{
    let mut p: usize = 0;
    while p < v.len() && v[p] < x
        invariant
            p <= v@.len(),
            v@ == old(v)@,
            forall|k: int| 0 <= k < p ==> v@[k] < x,
        decreases v@.len() - p,
    {
        p = p + 1;
    }
    if p < v.len() && v[p] == x {
        return;
    }
    v.insert(p, x);
    assert forall|i: int, j: int| 0 <= i < j < v@.len() implies v@[i] < v@[j] by {
        if j < p {
        } else if i < p && j == p {
        } else if i < p {
            assert(v@[j] == old(v)@[j - 1]);
        } else if i == p {
            assert(v@[j] == old(v)@[j - 1]);
            assert(old(v)@[p as int] >= x);
            if j - 1 > p {
                assert(old(v)@[p as int] < old(v)@[j - 1]);
            }
        } else {
            assert(v@[i] == old(v)@[i - 1] && v@[j] == old(v)@[j - 1]);
        }
    }
    assert forall|y: usize| v@.contains(y) <==> (old(v)@.contains(y) || y == x) by {
        if v@.contains(y) {
            let k = choose|k: int| 0 <= k < v@.len() && #[trigger] v@[k] == y;
            if k < p {
                assert(old(v)@[k] == y);
            } else if k > p {
                assert(old(v)@[k - 1] == y);
            }
        }
        if old(v)@.contains(y) {
            let k = choose|k: int| 0 <= k < old(v)@.len() && #[trigger] old(v)@[k] == y;
            if k < p {
                assert(v@[k] == y);
            } else {
                assert(v@[k + 1] == y);
            }
        }
        if y == x {
            assert(v@[p as int] == x);
        }
    }
}

/// The listed variables as a sorted set.
pub(crate) fn sorted_set_of(variables: &[usize]) -> (r: Vec<usize>)
    ensures
        sorted_set(r@),
        forall|y: usize| r@.contains(y) <==> variables@.contains(y),
        r@ == sorted_of(variables@),
{
    let mut out: Vec<usize> = Vec::new();
    for i in 0..variables.len()
        invariant
            sorted_set(out@),
            forall|y: usize| out@.contains(y) <==> variables@.take(i as int).contains(y),
    {
        insert_sorted(&mut out, variables[i]);
        assert forall|y: usize| out@.contains(y) <==> variables@.take(i + 1).contains(y) by {
            if variables@.take(i + 1).contains(y) {
                let k = choose|k: int| 0 <= k < i + 1 && #[trigger] variables@.take(i + 1)[k] == y;
                if k < i {
                    assert(variables@.take(i as int)[k] == y);
                }
            }
            if variables@.take(i as int).contains(y) {
                let k = choose|k: int| 0 <= k < i && #[trigger] variables@.take(i as int)[k] == y;
                assert(variables@.take(i + 1)[k] == y);
            }
            if y == variables@[i as int] {
                assert(variables@.take(i + 1)[i as int] == y);
            }
        }
    }
    assert(variables@.take(variables@.len() as int) =~= variables@);
    proof {
        lemma_sorted_of(out@, variables@);
    }
    out
}

/// The sorted set of the values of `s`.
pub open spec fn sorted_of(s: Seq<usize>) -> Seq<usize> {
    choose|t: Seq<usize>| sorted_set(t) && forall|y: usize| t.contains(y) <==> s.contains(y)
}

proof fn lemma_sorted_unique(a: Seq<usize>, b: Seq<usize>)
    requires
        sorted_set(a),
        sorted_set(b),
        forall|y: usize| a.contains(y) <==> b.contains(y),
    ensures
        a == b,
    decreases a.len(),
{
    if a.len() == 0 {
        if b.len() > 0 {
            assert(b.contains(b[0]));
        }
        assert(a =~= b);
    } else {
        assert(a.contains(a[0]));
        assert(b.contains(a[0]));
        let j = choose|j: int| 0 <= j < b.len() && b[j] == a[0];
        assert(b.contains(b[0]));
        assert(a.contains(b[0]));
        let i = choose|i: int| 0 <= i < a.len() && a[i] == b[0];
        assert(a[0] == b[0]);
        let ra = a.drop_first();
        let rb = b.drop_first();
        assert forall|y: usize| ra.contains(y) <==> rb.contains(y) by {
            if ra.contains(y) {
                let k = choose|k: int| 0 <= k < ra.len() && ra[k] == y;
                assert(a[k + 1] == y);
                assert(a.contains(y));
                let m = choose|m: int| 0 <= m < b.len() && b[m] == y;
                assert(m != 0);
                assert(rb[m - 1] == y);
            }
            if rb.contains(y) {
                let k = choose|k: int| 0 <= k < rb.len() && rb[k] == y;
                assert(b[k + 1] == y);
                assert(b.contains(y));
                let m = choose|m: int| 0 <= m < a.len() && a[m] == y;
                assert(m != 0);
                assert(ra[m - 1] == y);
            }
        }
        lemma_sorted_unique(ra, rb);
        assert(a.len() == b.len());
        assert forall|k: int| 0 <= k < a.len() implies a[k] == b[k] by {
            if k > 0 {
                assert(a[k] == ra[k - 1]);
                assert(b[k] == rb[k - 1]);
            }
        }
        assert(a =~= b);
    }
}

proof fn lemma_sorted_of(t: Seq<usize>, s: Seq<usize>)
    requires
        sorted_set(t),
        forall|y: usize| t.contains(y) <==> s.contains(y),
    ensures
        sorted_of(s) == t,
{
    let c = sorted_of(s);
    assert(sorted_set(c) && forall|y: usize| c.contains(y) <==> s.contains(y));
    lemma_sorted_unique(c, t);
}

/// A function, by its id and its support.
#[derive(Clone, Debug, Eq, PartialEq)]
pub struct FunctionSupport {
    pub fnid: usize,
    pub variables: Vec<usize>,
}

impl FunctionSupport {
    /// The function `fnid` with the listed variables as its support, kept
    /// as a sorted set.
    pub fn new(fnid: usize, variables: &[usize]) -> (r: Self)
        ensures
            r.fnid == fnid,
            r.variables@ == sorted_of(variables@),
            sorted_set(r.variables@),
            forall|y: usize| r.variables@.contains(y) <==> variables@.contains(y),
    {
        FunctionSupport { fnid, variables: sorted_set_of(variables) }
    }
}

/// A function support as a value: its id and its variables.
pub open spec fn pair_of(f: FunctionSupport) -> (usize, Seq<usize>) {
    (f.fnid, f.variables@)
}

pub open spec fn pairs(s: Seq<FunctionSupport>) -> Seq<(usize, Seq<usize>)> {
    Seq::new(s.len(), |i: int| pair_of(s[i]))
}

/// The first listed variable that is `n_vars` or more.
pub open spec fn first_outside(vars: Seq<usize>, n_vars: usize, k: nat) -> Option<usize>
    decreases k,
{
    if k == 0 {
        None
    } else {
        match first_outside(vars, n_vars, (k - 1) as nat) {
            Some(v) => Some(v),
            None => if vars[k - 1] >= n_vars { Some(vars[k - 1]) } else { None },
        }
    }
}

pub open spec fn outside(vars: Seq<usize>, n_vars: usize) -> Option<usize> {
    first_outside(vars, n_vars, vars.len())
}

proof fn lemma_first_outside_stays(vars: Seq<usize>, n_vars: usize, k: nat, m: nat)
    requires
        k <= m,
        first_outside(vars, n_vars, k) is Some,
    ensures
        first_outside(vars, n_vars, m) == first_outside(vars, n_vars, k),
    decreases m - k,
{
    if k < m {
        lemma_first_outside_stays(vars, n_vars, k, (m - 1) as nat);
    }
}

proof fn lemma_first_outside_none(vars: Seq<usize>, n_vars: usize, k: nat)
    requires
        k <= vars.len(),
    ensures
        first_outside(vars, n_vars, k) is None <==> forall|i: int| 0 <= i < k ==> vars[i] < n_vars,
    decreases k,
{
    if k > 0 {
        lemma_first_outside_none(vars, n_vars, (k - 1) as nat);
    }
}

/// Fails with the first variable that is `n_vars` or more.
fn validate_variables(variables: &[usize], n_vars: usize) -> (r: Result<(), ProductError>)
    ensures
        match outside(variables@, n_vars) {
            Some(v) => r == Err::<(), ProductError>(ProductError::VariableOutOfRange { variable: v, n_vars }),
            None => r is Ok && forall|i: int| 0 <= i < variables@.len() ==> variables@[i] < n_vars,
        },
{
    for i in 0..variables.len()
        invariant
            first_outside(variables@, n_vars, i as nat) is None,
    {
        if variables[i] >= n_vars {
            proof {
                lemma_first_outside_stays(variables@, n_vars, (i + 1) as nat, variables@.len());
            }
            return Err(ProductError::VariableOutOfRange { variable: variables[i], n_vars });
        }
    }
    proof {
        lemma_first_outside_none(variables@, n_vars, variables@.len());
    }
    Ok(())
}

/// The first out-of-range variable of the first `k` supports.
pub open spec fn supports_outside(supports: Seq<(usize, Seq<usize>)>, n_vars: usize, k: nat) -> Option<usize>
    decreases k,
{
    if k == 0 {
        None
    } else {
        match supports_outside(supports, n_vars, (k - 1) as nat) {
            Some(v) => Some(v),
            None => smallest_outside(supports[k - 1].1, n_vars),
        }
    }
}

proof fn lemma_supports_outside_stays(supports: Seq<(usize, Seq<usize>)>, n_vars: usize, k: nat, m: nat)
    requires
        k <= m,
        supports_outside(supports, n_vars, k) is Some,
    ensures
        supports_outside(supports, n_vars, m) == supports_outside(supports, n_vars, k),
    decreases m - k,
{
    if k < m {
        lemma_supports_outside_stays(supports, n_vars, k, (m - 1) as nat);
    }
}

fn validate_function_supports(functions: &[FunctionSupport], n_vars: usize) -> (r: Result<(), ProductError>)
    ensures
        match supports_outside(pairs(functions@), n_vars, functions@.len()) {
            Some(v) => r == Err::<(), ProductError>(ProductError::VariableOutOfRange { variable: v, n_vars }),
            None => r is Ok && forall|i: int, j: int| 0 <= i < functions@.len() && 0 <= j < functions@[i].variables@.len()
                ==> #[trigger] functions@[i].variables@[j] < n_vars,
        },
{
    for i in 0..functions.len()
        invariant
            supports_outside(pairs(functions@), n_vars, i as nat) is None,
            forall|a: int, j: int| 0 <= a < i && 0 <= j < functions@[a].variables@.len() ==> #[trigger] functions@[a].variables@[j] < n_vars,
    {
        let res = validate_set(functions[i].variables.as_slice(), n_vars);
        assert(supports_outside(pairs(functions@), n_vars, (i + 1) as nat) == smallest_outside(functions@[i as int].variables@, n_vars));
        if let Err(e) = res {
            proof {
                lemma_supports_outside_stays(pairs(functions@), n_vars, (i + 1) as nat, functions@.len());
            }
            return Err(e);
        }
    }
    Ok(())
}


#[derive(Clone, Copy, Debug, Eq, PartialEq)]
pub struct LonelySmooth {
    pub fnid: usize,
    pub variable: usize,
}

#[derive(Clone, Debug, Eq, PartialEq)]
pub struct MergeStep {
    pub absorbed_fnid: usize,
    pub target_fnid: usize,
    pub smoothed_variables: Vec<usize>,
    pub moved_variables: Vec<usize>,
    pub target_partition_before: usize,
    pub absorbed_partition: usize,
    pub target_partition_after: usize,
    pub target_cost_after: usize,
}

/// A merge step as a value.
pub struct MergeView {
    pub absorbed_fnid: usize,
    pub target_fnid: usize,
    pub smoothed_variables: Seq<usize>,
    pub moved_variables: Seq<usize>,
    pub target_partition_before: usize,
    pub absorbed_partition: usize,
    pub target_partition_after: usize,
    pub target_cost_after: usize,
}

pub open spec fn merge_view(m: MergeStep) -> MergeView {
    MergeView {
        absorbed_fnid: m.absorbed_fnid,
        target_fnid: m.target_fnid,
        smoothed_variables: m.smoothed_variables@,
        moved_variables: m.moved_variables@,
        target_partition_before: m.target_partition_before,
        absorbed_partition: m.absorbed_partition,
        target_partition_after: m.target_partition_after,
        target_cost_after: m.target_cost_after,
    }
}

#[derive(Clone, Debug, Eq, PartialEq)]
pub struct ProductMergePlan {
    pub initial_function_count: usize,
    pub lonely_smoothing: Vec<LonelySmooth>,
    pub merges: Vec<MergeStep>,
    pub final_fnid: usize,
    pub final_support: Vec<usize>,
}

/// A function while planning: its id, its support over the variables, its
/// partition and its cost.
pub struct FnRec {
    pub fnid: usize,
    pub support: Seq<bool>,
    pub partition: usize,
    pub cost: usize,
}

/// The support of the listed variables over `n` variables.
pub open spec fn mask_of_vars(vars: Seq<usize>, n: nat) -> Seq<bool> {
    Seq::new(n, |v: int| vars.contains(v as usize))
}

/// The powers of two from `m` on, doubled while not above `n`.
pub open spec fn pow_up(m: nat, n: nat) -> nat
    decreases n + 1 - m,
    when m >= 1
{
    if m > n { m } else if 2 * m > n { 2 * m } else { pow_up(2 * m, n) }
}

/// The largest power of two not above `n` (for `n` at least 1).
pub open spec fn pow_below(n: nat) -> nat {
    pow_up(1, n) / 2
}

/// The binary tree of partitions: the leaf each function starts in.
pub open spec fn leaf_of(i: nat, n: nat) -> nat {
    let x = (n - pow_below(n)) as nat;
    if i < 2 * x { i } else { i + x }
}

/// The partition that partition `j` merges into.
pub open spec fn next_of(j: nat, n: nat) -> nat {
    let x = (n - pow_below(n)) as nat;
    if j < 2 * x {
        2 * x + j / 2
    } else if j < 2 * n - 2 {
        n + j / 2
    } else {
        (2 * n - 2) as nat
    }
}

/// Number of queue entries in partition `p`.
pub open spec fn count_part(q: Seq<FnRec>, p: int) -> nat
    decreases q.len(),
{
    if q.len() == 0 {
        0
    } else {
        count_part(q.drop_last(), p) + (if q.last().partition == p { 1nat } else { 0nat })
    }
}

/// The queue order: partition, then cost, then id.
pub open spec fn key_le(a: FnRec, b: FnRec) -> bool {
    a.partition < b.partition || (a.partition == b.partition && (a.cost < b.cost || (a.cost == b.cost && a.fnid <= b.fnid)))
}

/// `x` placed after the entries of sorted `s` that do not come after it.
pub open spec fn insert_key(s: Seq<FnRec>, x: FnRec) -> Seq<FnRec>
    decreases s.len(),
{
    if s.len() == 0 {
        seq![x]
    } else if key_le(s.last(), x) {
        s.push(x)
    } else {
        insert_key(s.drop_last(), x).push(s.last())
    }
}

/// The queue sorted by [`key_le`], equal keys keeping their order.
pub open spec fn sort_queue(q: Seq<FnRec>) -> Seq<FnRec>
    decreases q.len(),
{
    if q.len() == 0 {
        seq![]
    } else {
        insert_key(sort_queue(q.drop_last()), q.last())
    }
}

/// `t` with `id` added at the end unless present.
pub open spec fn table_add(t: Seq<usize>, id: usize) -> Seq<usize> {
    if t.contains(id) { t } else { t.push(id) }
}

/// The test for ids other than `id`.
pub open spec fn other_than(id: usize) -> spec_fn(usize) -> bool {
    |x: usize| x != id
}

/// `t` without `id`.
pub open spec fn table_remove(t: Seq<usize>, id: usize) -> Seq<usize> {
    t.filter(other_than(id))
}

/// For each variable, the ids of the first `k` functions that depend on it
/// and do not keep it, in order of first appearance.
pub open spec fn build_table(fns: Seq<FnRec>, keep: Seq<bool>, n: nat, k: nat) -> Seq<Seq<usize>>
    decreases k,
{
    if k == 0 {
        Seq::new(n, |v: int| Seq::<usize>::empty())
    } else {
        let prev = build_table(fns, keep, n, (k - 1) as nat);
        let f = fns[k - 1];
        Seq::new(n, |v: int| if f.support[v] && !keep[v] { table_add(prev[v], f.fnid) } else { prev[v] })
    }
}

/// The last position of a function with id `id`.
pub open spec fn last_with_id(fns: Seq<FnRec>, id: usize) -> int
    decreases fns.len(),
{
    if fns.len() == 0 {
        -1
    } else if fns.last().fnid == id {
        fns.len() - 1
    } else {
        last_with_id(fns.drop_last(), id)
    }
}

/// The functions, the table and the lonely smoothings after the first `k`
/// variables: a variable that one function alone depends on leaves it.
pub struct LonelyState {
    pub fns: Seq<FnRec>,
    pub table: Seq<Seq<usize>>,
    pub result: Seq<LonelySmooth>,
}

pub open spec fn lonely_run(fns: Seq<FnRec>, table: Seq<Seq<usize>>, k: nat) -> LonelyState
    decreases k,
{
    if k == 0 {
        LonelyState { fns, table, result: seq![] }
    } else {
        let st = lonely_run(fns, table, (k - 1) as nat);
        let v = k - 1;
        if st.table[v].len() == 1 {
            let id = st.table[v][0];
            let idx = last_with_id(st.fns, id);
            let f = st.fns[idx];
            LonelyState {
                fns: st.fns.update(idx, FnRec { support: f.support.update(v, false), ..f }),
                table: st.table.update(v, seq![]),
                result: st.result.push(LonelySmooth { fnid: id, variable: v as usize }),
            }
        } else {
            st
        }
    }
}

/// The smoothing pass of a merge over the first `k` variables: the table,
/// the smoothed and moved variables, and the merged support.
pub struct SmoothState {
    pub table: Seq<Seq<usize>>,
    pub smoothed: Seq<usize>,
    pub moved: Seq<usize>,
    pub merged: Seq<bool>,
}

pub open spec fn smooth_run(fn0: FnRec, fn1: FnRec, table: Seq<Seq<usize>>, k: nat) -> SmoothState
    decreases k,
{
    if k == 0 {
        SmoothState { table, smoothed: seq![], moved: seq![], merged: seq![] }
    } else {
        let st = smooth_run(fn0, fn1, table, (k - 1) as nat);
        let v = k - 1;
        if st.table[v].len() == 0 || !fn1.support[v] {
            SmoothState { merged: st.merged.push(fn0.support[v] || fn1.support[v]), ..st }
        } else if !fn0.support[v] {
            SmoothState {
                table: st.table.update(v, table_add(table_remove(st.table[v], fn1.fnid), fn0.fnid)),
                smoothed: st.smoothed,
                moved: st.moved.push(v as usize),
                merged: st.merged.push(true),
            }
        } else if st.table[v].len() == 2 {
            SmoothState {
                table: st.table.update(v, seq![]),
                smoothed: st.smoothed.push(v as usize),
                moved: st.moved,
                merged: st.merged.push(false),
            }
        } else {
            SmoothState {
                table: st.table.update(v, table_remove(st.table[v], fn1.fnid)),
                smoothed: st.smoothed,
                moved: st.moved,
                merged: st.merged.push(true),
            }
        }
    }
}

/// The merge loop's state: the queue, the table, the partition counts and
/// the merges so far.
pub struct MergeState {
    pub queue: Seq<FnRec>,
    pub table: Seq<Seq<usize>>,
    pub counts: Seq<nat>,
    pub merges: Seq<MergeView>,
}

/// One merge: the first two functions of the sorted queue merge into the
/// first; smoothed variables leave its support; the first moves up the
/// partition tree when it was alone in its partition.
pub open spec fn merge_step(st: MergeState, n_vars: nat, n: nat) -> MergeState {
    let q = sort_queue(st.queue);
    let fn0 = q[0];
    let fn1 = q[1];
    let sm = smooth_run(fn0, fn1, st.table, n_vars);
    let c1 = st.counts.update(fn1.partition as int, (st.counts[fn1.partition as int] - 1) as nat);
    let moves = c1[fn0.partition as int] == 1;
    let p0 = if moves { next_of(fn0.partition as nat, n) as usize } else { fn0.partition };
    let c2 = if moves {
        c1.update(fn0.partition as int, 0).update(p0 as int, c1.update(fn0.partition as int, 0)[p0 as int] + 1)
    } else {
        c1
    };
    let new0 = FnRec { fnid: fn0.fnid, support: sm.merged, partition: p0, cost: (fn0.cost + n) as usize };
    MergeState {
        queue: q.skip(2).push(new0),
        table: sm.table,
        counts: c2,
        merges: st.merges.push(MergeView {
            absorbed_fnid: fn1.fnid,
            target_fnid: fn0.fnid,
            smoothed_variables: sm.smoothed,
            moved_variables: sm.moved,
            target_partition_before: fn0.partition,
            absorbed_partition: fn1.partition,
            target_partition_after: p0,
            target_cost_after: new0.cost,
        }),
    }
}

pub open spec fn merge_run(st: MergeState, n_vars: nat, n: nat, k: nat) -> MergeState
    decreases k,
{
    if k == 0 {
        st
    } else {
        merge_step(merge_run(st, n_vars, n, (k - 1) as nat), n_vars, n)
    }
}


/// Fails with the smallest listed variable that is `n_vars` or more.
fn validate_set(variables: &[usize], n_vars: usize) -> (r: Result<(), ProductError>)
    ensures
        match smallest_outside(variables@, n_vars) {
            Some(v) => r == Err::<(), ProductError>(ProductError::VariableOutOfRange { variable: v, n_vars }),
            None => r is Ok && forall|i: int| 0 <= i < variables@.len() ==> variables@[i] < n_vars,
        },
{
    let mut worst: Option<usize> = None;
    for j in 0..variables.len()
        invariant
            worst == smallest_outside(variables@.take(j as int), n_vars),
            worst is None ==> forall|k: int| 0 <= k < j ==> variables@[k] < n_vars,
    {
        let v = variables[j];
        assert(variables@.take(j + 1).drop_last() =~= variables@.take(j as int));
        if v >= n_vars {
            match worst {
                Some(w) => {
                    if v < w {
                        worst = Some(v);
                    }
                },
                None => {
                    worst = Some(v);
                },
            }
        }
    }
    assert(variables@.take(variables@.len() as int) =~= variables@);
    match worst {
        Some(v) => Err(ProductError::VariableOutOfRange { variable: v, n_vars }),
        None => Ok(()),
    }
}

/// The support of the listed variables, all below `n`.
fn mask_from(vars: &[usize], n: usize) -> (r: Vec<bool>)
    requires
        forall|i: int| 0 <= i < vars@.len() ==> vars@[i] < n,
    ensures
        r@ == mask_of_vars(vars@, n as nat),
{
    let mut m: Vec<bool> = Vec::new();
    for x in 0..n
        invariant
            m@.len() == x,
            forall|k: int| 0 <= k < x ==> !m@[k],
    {
        m.push(false);
    }
    for j in 0..vars.len()
        invariant
            m@.len() == n,
            forall|i: int| 0 <= i < vars@.len() ==> vars@[i] < n,
            forall|x: int| 0 <= x < n ==> (#[trigger] m@[x] <==> vars@.take(j as int).contains(x as usize)),
    {
        let v = vars[j];
        m.set(v, true);
        assert forall|x: int| 0 <= x < n implies (#[trigger] m@[x] <==> vars@.take(j + 1).contains(x as usize)) by {
            if vars@.take(j + 1).contains(x as usize) {
                let k = choose|k: int| 0 <= k < j + 1 && #[trigger] vars@.take(j + 1)[k] == x as usize;
                if k < j {
                    assert(vars@.take(j as int)[k] == x as usize);
                }
            }
            if vars@.take(j as int).contains(x as usize) {
                let k = choose|k: int| 0 <= k < j && #[trigger] vars@.take(j as int)[k] == x as usize;
                assert(vars@.take(j + 1)[k] == x as usize);
            }
            if x == v {
                assert(vars@.take(j + 1)[j as int] == v);
            }
        }
    }
    assert(vars@.take(vars@.len() as int) =~= vars@);
    assert(m@ =~= mask_of_vars(vars@, n as nat));
    m
}

/// The variables of a support, in order.
pub open spec fn members_upto(m: Seq<bool>, k: nat) -> Seq<usize>
    decreases k,
{
    if k == 0 {
        seq![]
    } else if m[k - 1] {
        members_upto(m, (k - 1) as nat).push((k - 1) as usize)
    } else {
        members_upto(m, (k - 1) as nat)
    }
}

pub open spec fn members(m: Seq<bool>) -> Seq<usize> {
    members_upto(m, m.len())
}

fn members_of(m: &Vec<bool>) -> (r: Vec<usize>)
    ensures
        r@ == members(m@),
{
    let mut out: Vec<usize> = Vec::new();
    for v in 0..m.len()
        invariant
            out@ == members_upto(m@, v as nat),
    {
        if m[v] {
            out.push(v);
        }
    }
    out
}

fn copy_bools(m: &Vec<bool>) -> (r: Vec<bool>)
    ensures
        r@ == m@,
{
    let mut out: Vec<bool> = Vec::new();
    for v in 0..m.len()
        invariant
            out@ == m@.take(v as int),
    {
        out.push(m[v]);
        assert(m@.take(v + 1) =~= m@.take(v as int).push(m@[v as int]));
    }
    assert(m@.take(m@.len() as int) =~= m@);
    out
}

fn copy_ids(v: &Vec<usize>) -> (r: Vec<usize>)
    ensures
        r@ == v@,
{
    let mut out: Vec<usize> = Vec::new();
    for k in 0..v.len()
        invariant
            out@ == v@.take(k as int),
    {
        out.push(v[k]);
        assert(v@.take(k + 1) =~= v@.take(k as int).push(v@[k as int]));
    }
    assert(v@.take(v@.len() as int) =~= v@);
    out
}

fn ids_add(t: &Vec<usize>, id: usize) -> (r: Vec<usize>)
    ensures
        r@ == table_add(t@, id),
{
    let mut out = copy_ids(t);
    for k in 0..t.len()
        invariant
            out@ == t@,
            forall|i: int| 0 <= i < k ==> t@[i] != id,
    {
        if t[k] == id {
            return out;
        }
    }
    out.push(id);
    out
}

fn ids_remove(t: &Vec<usize>, id: usize) -> (r: Vec<usize>)
    ensures
        r@ == table_remove(t@, id),
{
    let mut out: Vec<usize> = Vec::new();
    for k in 0..t.len()
        invariant
            out@ == t@.take(k as int).filter(other_than(id)),
    {
        let c = t[k];
        assert(t@.take(k + 1).drop_last() =~= t@.take(k as int));
        if c != id {
            out.push(c);
        }
        proof {
            reveal(Seq::filter);
            assert(t@.take(k + 1).last() == c);
        }
    }
    assert(t@.take(t@.len() as int) =~= t@);
    out
}

/// A function while planning.
struct FnInfo {
    fnid: usize,
    support: Vec<bool>,
    partition: usize,
    cost: usize,
}

spec fn fn_view(f: FnInfo) -> FnRec {
    FnRec { fnid: f.fnid, support: f.support@, partition: f.partition, cost: f.cost }
}

spec fn fns_view(v: Seq<FnInfo>) -> Seq<FnRec> {
    Seq::new(v.len(), |i: int| fn_view(v[i]))
}

spec fn table_view(t: Seq<Vec<usize>>) -> Seq<Seq<usize>> {
    Seq::new(t.len(), |v: int| t[v]@)
}

fn key_before(a: &FnInfo, b: &FnInfo) -> (r: bool)
    ensures
        r == key_le(fn_view(*a), fn_view(*b)),
{
    a.partition < b.partition || (a.partition == b.partition && (a.cost < b.cost || (a.cost == b.cost && a.fnid <= b.fnid)))
}

/// Where [`insert_key`] places `x` in `s`.
spec fn scan_pos(s: Seq<FnRec>, x: FnRec) -> int
    decreases s.len(),
{
    if s.len() == 0 {
        0
    } else if key_le(s.last(), x) {
        s.len() as int
    } else {
        scan_pos(s.drop_last(), x)
    }
}

proof fn lemma_insert_key(s: Seq<FnRec>, x: FnRec)
    ensures
        0 <= scan_pos(s, x) <= s.len(),
        insert_key(s, x) == s.take(scan_pos(s, x)).push(x) + s.skip(scan_pos(s, x)),
    decreases s.len(),
{
    if s.len() > 0 && !key_le(s.last(), x) {
        lemma_insert_key(s.drop_last(), x);
        let p = scan_pos(s, x);
        assert(s.drop_last().take(p) =~= s.take(p));
        assert(s.drop_last().skip(p).push(s.last()) =~= s.skip(p));
        assert(insert_key(s, x) =~= s.take(p).push(x) + s.skip(p));
    } else if s.len() > 0 {
        assert(s.take(s.len() as int) =~= s);
        assert(s.skip(s.len() as int) =~= Seq::<FnRec>::empty());
        assert(insert_key(s, x) =~= s.take(s.len() as int).push(x) + s.skip(s.len() as int));
    } else {
        assert(insert_key(s, x) =~= s.take(0).push(x) + s.skip(0));
    }
}

/// Sorts the queue (see [`sort_queue`]).
fn sort_fns(queue: Vec<FnInfo>) -> (r: Vec<FnInfo>)
    ensures
        fns_view(r@) == sort_queue(fns_view(queue@)),
{
    let ghost q = fns_view(queue@);
    let mut rest = queue;
    let mut res: Vec<FnInfo> = Vec::new();
    let n = rest.len();
    for i in 0..n
        invariant
            n == q.len(),
            fns_view(rest@) == q.skip(i as int),
            fns_view(res@) == sort_queue(q.take(i as int)),
    {
        let ghost before = rest@;
        assert(fns_view(before).len() == before.len());
        assert(rest@.len() == n - i);
        let x = rest.remove(0);
        assert(x == before[0]);
        assert(rest@ =~= before.skip(1));
        assert(fns_view(rest@) =~= q.skip(i + 1)) by {
            assert(fns_view(rest@).len() == q.skip(i + 1).len());
            assert forall|k: int| 0 <= k < fns_view(rest@).len() implies fns_view(rest@)[k] == q.skip(i + 1)[k] by {
                assert(fns_view(before)[k + 1] == q.skip(i as int)[k + 1]);
            }
        }
        let ghost s = fns_view(res@);
        let mut p = res.len();
        assert(s.take(p as int) =~= s);
        while p > 0 && !key_before(&res[p - 1], &x)
            invariant
                p <= res@.len(),
                s == fns_view(res@),
                scan_pos(s, fn_view(x)) == scan_pos(s.take(p as int), fn_view(x)),
            decreases p,
        {
            assert(s.take(p as int).drop_last() =~= s.take(p - 1));
            p = p - 1;
        }
        proof {
            if p > 0 {
                assert(s.take(p as int).last() == s[p - 1]);
            }
            lemma_insert_key(s, fn_view(x));
            assert(q.take(i + 1).drop_last() =~= q.take(i as int));
            assert(fns_view(before)[0] == q.skip(i as int)[0]);
            assert(q.take(i + 1).last() == fn_view(x));
            assert(sort_queue(q.take(i + 1)) == insert_key(sort_queue(q.take(i as int)), fn_view(x)));
        }
        assert(scan_pos(s, fn_view(x)) == p);
        res.insert(p, x);
        assert(fns_view(res@) =~= s.take(p as int).push(fn_view(x)) + s.skip(p as int));
    }
    assert(q.take(n as int) =~= q);
    res
}

proof fn lemma_count_concat(a: Seq<FnRec>, b: Seq<FnRec>, p: int)
    ensures
        count_part(a + b, p) == count_part(a, p) + count_part(b, p),
    decreases b.len(),
{
    if b.len() == 0 {
        assert(a + b =~= a);
    } else {
        assert((a + b).drop_last() =~= a + b.drop_last());
        lemma_count_concat(a, b.drop_last(), p);
    }
}

proof fn lemma_count_le(q: Seq<FnRec>, p: int)
    ensures
        count_part(q, p) <= q.len(),
    decreases q.len(),
{
    if q.len() > 0 {
        lemma_count_le(q.drop_last(), p);
    }
}

proof fn lemma_count_insert(s: Seq<FnRec>, x: FnRec, p: int)
    ensures
        count_part(insert_key(s, x), p) == count_part(s, p) + (if x.partition == p { 1nat } else { 0nat }),
        insert_key(s, x).len() == s.len() + 1,
    decreases s.len(),
{
    if s.len() == 0 {
        assert(seq![x].drop_last() =~= Seq::<FnRec>::empty());
        assert(count_part(Seq::<FnRec>::empty(), p) == 0);
        assert(count_part(s, p) == 0);
        assert(seq![x].last() == x);
    } else if key_le(s.last(), x) {
        assert(s.push(x).drop_last() =~= s);
        assert(s.push(x).last() == x);
    } else {
        lemma_count_insert(s.drop_last(), x, p);
        let t = insert_key(s.drop_last(), x);
        assert(t.push(s.last()).drop_last() =~= t);
        assert(insert_key(s, x) == t.push(s.last()));
        assert(count_part(t.push(s.last()), p) == count_part(t, p) + (if s.last().partition == p { 1nat } else { 0nat }));
        assert(count_part(s, p) == count_part(s.drop_last(), p) + (if s.last().partition == p { 1nat } else { 0nat }));
    }
}

proof fn lemma_sort_count(q: Seq<FnRec>, p: int)
    ensures
        count_part(sort_queue(q), p) == count_part(q, p),
        sort_queue(q).len() == q.len(),
    decreases q.len(),
{
    if q.len() > 0 {
        lemma_sort_count(q.drop_last(), p);
        lemma_count_insert(sort_queue(q.drop_last()), q.last(), p);
    }
}

proof fn lemma_sort_elements(q: Seq<FnRec>)
    ensures
        sort_queue(q).len() == q.len(),
        forall|j: int| 0 <= j < q.len() ==> exists|i: int| 0 <= i < q.len() && #[trigger] sort_queue(q)[j] == q[i],
    decreases q.len(),
{
    if q.len() > 0 {
        let r = q.drop_last();
        lemma_sort_elements(r);
        let s = sort_queue(r);
        lemma_insert_key(s, q.last());
        let p = scan_pos(s, q.last());
        assert forall|j: int| 0 <= j < q.len() implies exists|i: int| 0 <= i < q.len() && #[trigger] sort_queue(q)[j] == q[i] by {
            if j < p {
                assert(sort_queue(q)[j] == s[j]);
                let i = choose|i: int| 0 <= i < r.len() && s[j] == r[i];
                assert(q[i] == r[i]);
            } else if j == p {
                assert(sort_queue(q)[j] == q[q.len() - 1]);
            } else {
                assert(sort_queue(q)[j] == s[j - 1]);
                let i = choose|i: int| 0 <= i < r.len() && s[j - 1] == r[i];
                assert(q[i] == r[i]);
            }
        }
    }
}

proof fn lemma_pow_up(m: nat, n: nat)
    requires
        1 <= m <= n,
    ensures
        n < pow_up(m, n) <= 2 * n,
        pow_up(m, n) % 2 == 0,
    decreases n + 1 - m,
{
    if 2 * m <= n {
        lemma_pow_up(2 * m, n);
    }
}

/// The largest power of two not above `n`.
fn largest_power_below(n: usize) -> (r: usize)
    requires
        1 <= n <= usize::MAX / 2,
    ensures
        r == pow_below(n as nat),
        1 <= r <= n < 2 * r,
{
    let mut m: usize = 1;
    while m <= n
        invariant
            1 <= m <= 2 * n,
            n <= usize::MAX / 2,
            pow_up(m as nat, n as nat) == pow_up(1, n as nat),
        decreases 2 * n + 1 - m,
    {
        assert(pow_up(m as nat, n as nat) == pow_up(2 * m as nat, n as nat));
        m = m * 2;
    }
    proof {
        lemma_pow_up(1, n as nat);
    }
    m / 2
}

/// The leaf partition of function `i` of `n`, with `x` the excess over the
/// largest power of two.
fn leaf_partition(i: usize, n: usize, x: usize) -> (r: usize)
    requires
        i < n,
        x == n - pow_below(n as nat),
        pow_below(n as nat) >= 1,
        2 * n <= usize::MAX,
    ensures
        r == leaf_of(i as nat, n as nat),
        r < 2 * n - 1,
{
    if i < 2 * x { i } else { i + x }
}

/// The partition that partition `j` of a tree over `n` functions merges into.
fn next_partition(j: usize, n: usize, x: usize) -> (r: usize)
    requires
        j < 2 * n - 1,
        x == n - pow_below(n as nat),
        pow_below(n as nat) <= n < 2 * pow_below(n as nat),
        2 * n <= usize::MAX,
    ensures
        r == next_of(j as nat, n as nat),
        r < 2 * n - 1,
{
    if j < 2 * x {
        2 * x + j / 2
    } else if j < 2 * n - 2 {
        n + j / 2
    } else {
        2 * n - 2
    }
}

/// Some function of `fns` has id `id`.
pub open spec fn known_id(fns: Seq<FnRec>, id: usize) -> bool {
    exists|i: int| 0 <= i < fns.len() && fns[i].fnid == id
}

/// Every id in the table is that of a function of `fns`.
pub open spec fn ids_known(table: Seq<Seq<usize>>, fns: Seq<FnRec>) -> bool {
    forall|v: int, j: int| 0 <= v < table.len() && 0 <= j < table[v].len() ==> #[trigger] known_id(fns, table[v][j])
}

proof fn lemma_build_table(fns: Seq<FnRec>, keep: Seq<bool>, n: nat, k: nat)
    requires
        k <= fns.len(),
    ensures
        build_table(fns, keep, n, k).len() == n,
        ids_known(build_table(fns, keep, n, k), fns),
    decreases k,
{
    if k > 0 {
        lemma_build_table(fns, keep, n, (k - 1) as nat);
        let prev = build_table(fns, keep, n, (k - 1) as nat);
        let t = build_table(fns, keep, n, k);
        let f = fns[k - 1];
        assert forall|v: int, j: int| 0 <= v < t.len() && 0 <= j < t[v].len() implies #[trigger] known_id(fns, t[v][j]) by {
            if j < prev[v].len() && t[v][j] == prev[v][j] {
                assert(known_id(fns, prev[v][j]));
            } else {
                assert(t[v][j] == f.fnid);
                assert(fns[k - 1].fnid == f.fnid);
            }
        }
    }
}

/// For each variable, the ids of the functions that depend on it and do not
/// keep it.
fn extract_var_table(fns: &Vec<FnInfo>, keep: &Vec<bool>, n_vars: usize) -> (r: Vec<Vec<usize>>)
    requires
        keep@.len() == n_vars,
        forall|i: int| 0 <= i < fns@.len() ==> (#[trigger] fns@[i]).support@.len() == n_vars,
    ensures
        r@.len() == n_vars,
        table_view(r@) == build_table(fns_view(fns@), keep@, n_vars as nat, fns@.len() as nat),
{
    let ghost fv = fns_view(fns@);
    let mut table: Vec<Vec<usize>> = Vec::new();
    for v in 0..n_vars
        invariant
            table@.len() == v,
            forall|w: int| 0 <= w < v ==> (#[trigger] table@[w])@ == Seq::<usize>::empty(),
    {
        table.push(Vec::new());
    }
    assert(table_view(table@) =~= build_table(fv, keep@, n_vars as nat, 0));
    for k in 0..fns.len()
        invariant
            fv == fns_view(fns@),
            keep@.len() == n_vars,
            forall|i: int| 0 <= i < fns@.len() ==> (#[trigger] fns@[i]).support@.len() == n_vars,
            table@.len() == n_vars,
            table_view(table@) == build_table(fv, keep@, n_vars as nat, k as nat),
    {
        let ghost prev = table_view(table@);
        let f = &fns[k];
        assert(fv[k as int] == fn_view(*f));
        for v in 0..n_vars
            invariant
                fv == fns_view(fns@),
                keep@.len() == n_vars,
                f.support@.len() == n_vars,
                table@.len() == n_vars,
                prev.len() == n_vars,
                forall|w: int| 0 <= w < n_vars ==> #[trigger] table_view(table@)[w] == (if w < v && f.support@[w] && !keep@[w] {
                    table_add(prev[w], f.fnid)
                } else {
                    prev[w]
                }),
        {
            if f.support[v] && !keep[v] {
                let t = ids_add(&table[v], f.fnid);
                let ghost before = table@;
                table.set(v, t);
                assert forall|w: int| 0 <= w < n_vars implies #[trigger] table_view(table@)[w] == (if w < v + 1 && f.support@[w] && !keep@[w] {
                    table_add(prev[w], f.fnid)
                } else {
                    prev[w]
                }) by {
                    if w != v {
                        assert(table@[w] == before[w]);
                        assert(table_view(before)[w] == before[w]@);
                    } else {
                        assert(table_view(before)[w] == before[w]@);
                        assert(table_view(before)[w] == prev[w]);
                        assert(table@[w] == t);
                    }
                }
            } else {
                assert forall|w: int| 0 <= w < n_vars implies #[trigger] table_view(table@)[w] == (if w < v + 1 && f.support@[w] && !keep@[w] {
                    table_add(prev[w], f.fnid)
                } else {
                    prev[w]
                }) by {
                    if w < v {
                    } else if w == v {
                    }
                }
            }
        }
        assert(table_view(table@) =~= build_table(fv, keep@, n_vars as nat, (k + 1) as nat));
    }
    table
}

/// The position of the last function with id `id`.
fn last_index_of(fns: &Vec<FnInfo>, id: usize) -> (r: usize)
    requires
        known_id(fns_view(fns@), id),
    ensures
        r < fns@.len(),
        r as int == last_with_id(fns_view(fns@), id),
        fns@[r as int].fnid == id,
{
    let ghost fv = fns_view(fns@);
    let mut i = fns.len();
    assert(fv.take(i as int) =~= fv);
    while i > 0
        invariant
            i <= fns@.len(),
            fv == fns_view(fns@),
            known_id(fv, id),
            last_with_id(fv, id) == last_with_id(fv.take(i as int), id),
            forall|j: int| i <= j < fns@.len() ==> #[trigger] fns@[j].fnid != id,
        decreases i,
    {
        assert(fv.take(i as int).last() == fn_view(fns@[i - 1]));
        if fns[i - 1].fnid == id {
            return i - 1;
        }
        assert(fv.take(i as int).drop_last() =~= fv.take(i - 1));
        i = i - 1;
    }
    proof {
        let w = choose|w: int| 0 <= w < fv.len() && fv[w].fnid == id;
        assert(fns@[w].fnid == id);
    }
    0
}

/// Removes each variable that one function alone depends on from that
/// function's support.
fn smooth_lonely_variables(fns: &mut Vec<FnInfo>, table: &mut Vec<Vec<usize>>, n_vars: usize) -> (r: Vec<LonelySmooth>)
    requires
        old(table)@.len() == n_vars,
        forall|i: int| 0 <= i < old(fns)@.len() ==> (#[trigger] old(fns)@[i]).support@.len() == n_vars,
        ids_known(table_view(old(table)@), fns_view(old(fns)@)),
    ensures
        fns_view(final(fns)@) == lonely_run(fns_view(old(fns)@), table_view(old(table)@), n_vars as nat).fns,
        table_view(final(table)@) == lonely_run(fns_view(old(fns)@), table_view(old(table)@), n_vars as nat).table,
        r@ == lonely_run(fns_view(old(fns)@), table_view(old(table)@), n_vars as nat).result,
        final(table)@.len() == n_vars,
        final(fns)@.len() == old(fns)@.len(),
        forall|i: int| 0 <= i < final(fns)@.len() ==> (#[trigger] final(fns)@[i]).support@.len() == n_vars
            && final(fns)@[i].partition == old(fns)@[i].partition && final(fns)@[i].cost == old(fns)@[i].cost,
{
    let ghost f0 = fns_view(fns@);
    let ghost t0 = table_view(table@);
    let ghost fns_in = fns@;
    let mut result: Vec<LonelySmooth> = Vec::new();
    for v in 0..n_vars
        invariant
            table@.len() == n_vars,
            fns@.len() == fns_in.len(),
            forall|i: int| 0 <= i < fns@.len() ==> (#[trigger] fns@[i]).support@.len() == n_vars
                && fns@[i].partition == fns_in[i].partition && fns@[i].cost == fns_in[i].cost,
            fns_view(fns@) == lonely_run(f0, t0, v as nat).fns,
            table_view(table@) == lonely_run(f0, t0, v as nat).table,
            result@ == lonely_run(f0, t0, v as nat).result,
            ids_known(table_view(table@), fns_view(fns@)),
    {
        let ghost st = lonely_run(f0, t0, v as nat);
        assert(table_view(table@)[v as int] == table@[v as int]@);
        if table[v].len() == 1 {
            let id = table[v][0];
            assert(known_id(fns_view(fns@), table_view(table@)[v as int][0]));
            let idx = last_index_of(fns, id);
            let ghost fb = fns@;
            let ghost tb = table@;
            let mut sup = copy_bools(&fns[idx].support);
            sup.set(v, false);
            let nf = FnInfo { fnid: fns[idx].fnid, support: sup, partition: fns[idx].partition, cost: fns[idx].cost };
            fns.set(idx, nf);
            table.set(v, Vec::new());
            result.push(LonelySmooth { fnid: id, variable: v });
            assert(fns_view(fns@) =~= st.fns.update(idx as int, FnRec { support: st.fns[idx as int].support.update(v as int, false), ..st.fns[idx as int] }));
            assert(table_view(table@) =~= st.table.update(v as int, seq![]));
            assert forall|w: int, j: int| 0 <= w < table_view(table@).len() && 0 <= j < table_view(table@)[w].len()
                implies #[trigger] known_id(fns_view(fns@), table_view(table@)[w][j]) by {
                assert(w != v);
                assert(table_view(table@)[w] == table_view(tb)[w]);
                assert(known_id(fns_view(fb), table_view(tb)[w][j]));
                let i = choose|i: int| 0 <= i < fns_view(fb).len() && fns_view(fb)[i].fnid == table_view(tb)[w][j];
                assert(fns_view(fns@)[i].fnid == fns_view(fb)[i].fnid);
            }
        }
    }
    result
}

/// The smoothing pass of merging `fn1` into `fn0`: returns the smoothed and
/// moved variables and the merged support.
fn smooth_vars_extract(fn0: &FnInfo, fn1: &FnInfo, table: &mut Vec<Vec<usize>>, n_vars: usize)
    -> (r: (Vec<usize>, Vec<usize>, Vec<bool>))
    requires
        fn0.support@.len() == n_vars,
        fn1.support@.len() == n_vars,
        old(table)@.len() == n_vars,
    ensures
        final(table)@.len() == n_vars,
        table_view(final(table)@) == smooth_run(fn_view(*fn0), fn_view(*fn1), table_view(old(table)@), n_vars as nat).table,
        r.0@ == smooth_run(fn_view(*fn0), fn_view(*fn1), table_view(old(table)@), n_vars as nat).smoothed,
        r.1@ == smooth_run(fn_view(*fn0), fn_view(*fn1), table_view(old(table)@), n_vars as nat).moved,
        r.2@ == smooth_run(fn_view(*fn0), fn_view(*fn1), table_view(old(table)@), n_vars as nat).merged,
{
    let ghost t0 = table_view(table@);
    let mut smoothed: Vec<usize> = Vec::new();
    let mut moved: Vec<usize> = Vec::new();
    let mut merged: Vec<bool> = Vec::new();
    for v in 0..n_vars
        invariant
            table@.len() == n_vars,
            fn0.support@.len() == n_vars,
            fn1.support@.len() == n_vars,
            table_view(table@) == smooth_run(fn_view(*fn0), fn_view(*fn1), t0, v as nat).table,
            smoothed@ == smooth_run(fn_view(*fn0), fn_view(*fn1), t0, v as nat).smoothed,
            moved@ == smooth_run(fn_view(*fn0), fn_view(*fn1), t0, v as nat).moved,
            merged@ == smooth_run(fn_view(*fn0), fn_view(*fn1), t0, v as nat).merged,
    {
        let ghost st = smooth_run(fn_view(*fn0), fn_view(*fn1), t0, v as nat);
        assert(table_view(table@)[v as int] == table@[v as int]@);
        let len = table[v].len();
        if len == 0 || !fn1.support[v] {
            merged.push(fn0.support[v] || fn1.support[v]);
        } else if !fn0.support[v] {
            let a = ids_remove(&table[v], fn1.fnid);
            let b = ids_add(&a, fn0.fnid);
            table.set(v, b);
            moved.push(v);
            merged.push(true);
            assert(table_view(table@) =~= st.table.update(v as int, table_add(table_remove(st.table[v as int], fn1.fnid), fn0.fnid)));
        } else if len == 2 {
            table.set(v, Vec::new());
            smoothed.push(v);
            merged.push(false);
            assert(table_view(table@) =~= st.table.update(v as int, seq![]));
        } else {
            let a = ids_remove(&table[v], fn1.fnid);
            table.set(v, a);
            merged.push(true);
            assert(table_view(table@) =~= st.table.update(v as int, table_remove(st.table[v as int], fn1.fnid)));
        }
    }
    (smoothed, moved, merged)
}

/// A plan as a value.
pub struct PlanView {
    pub initial_function_count: usize,
    pub lonely_smoothing: Seq<LonelySmooth>,
    pub merges: Seq<MergeView>,
    pub final_fnid: usize,
    pub final_support: Seq<usize>,
}

pub open spec fn merges_view(m: Seq<MergeStep>) -> Seq<MergeView> {
    Seq::new(m.len(), |i: int| merge_view(m[i]))
}

pub open spec fn plan_view(p: ProductMergePlan) -> PlanView {
    PlanView {
        initial_function_count: p.initial_function_count,
        lonely_smoothing: p.lonely_smoothing@,
        merges: merges_view(p.merges@),
        final_fnid: p.final_fnid,
        final_support: p.final_support@,
    }
}

pub open spec fn plan_result_view(r: Result<ProductMergePlan, ProductError>) -> Result<PlanView, ProductError> {
    match r {
        Ok(p) => Ok(plan_view(p)),
        Err(e) => Err(e),
    }
}

/// The functions at the start: function `i` starts in leaf `leaf_of(i)` with
/// cost `i`.
pub open spec fn initial_fns(supports: Seq<(usize, Seq<usize>)>, n_vars: nat) -> Seq<FnRec> {
    Seq::new(supports.len(), |i: int| FnRec {
        fnid: supports[i].0,
        support: mask_of_vars(supports[i].1, n_vars),
        partition: leaf_of(i as nat, supports.len()) as usize,
        cost: i as usize,
    })
}

/// The variables that the lonely pass starts from.
pub open spec fn initial_lonely(supports: Seq<(usize, Seq<usize>)>, keep: Seq<usize>, n_vars: nat) -> LonelyState {
    let fns0 = initial_fns(supports, n_vars);
    lonely_run(fns0, build_table(fns0, mask_of_vars(keep, n_vars), n_vars, supports.len()), n_vars)
}

/// The merge loop's state before the first merge.
pub open spec fn initial_merge_state(supports: Seq<(usize, Seq<usize>)>, keep: Seq<usize>, n_vars: nat) -> MergeState {
    let lone = initial_lonely(supports, keep, n_vars);
    MergeState {
        queue: lone.fns,
        table: lone.table,
        counts: Seq::new((2 * supports.len() - 1) as nat, |p: int| count_part(lone.fns, p)),
        merges: seq![],
    }
}

/// The plan for valid supports: the lonely pass, then one merge fewer than
/// there are functions; the function left is the product.
pub open spec fn plan_of(supports: Seq<(usize, Seq<usize>)>, keep: Seq<usize>, n_vars: usize) -> PlanView {
    let n = supports.len();
    let st = merge_run(initial_merge_state(supports, keep, n_vars as nat), n_vars as nat, n, (n - 1) as nat);
    let fin = sort_queue(st.queue)[0];
    PlanView {
        initial_function_count: n as usize,
        lonely_smoothing: initial_lonely(supports, keep, n_vars as nat).result,
        merges: st.merges,
        final_fnid: fin.fnid,
        final_support: members(fin.support),
    }
}

/// What planning gives: the smallest kept variable out of range, else the
/// first function with a variable out of range (its smallest such), else
/// the empty set of functions, else the plan.
pub open spec fn plan_result(supports: Seq<(usize, Seq<usize>)>, keep: Seq<usize>, n_vars: usize) -> Result<PlanView, ProductError> {
    match smallest_outside(keep, n_vars) {
        Some(v) => Err(ProductError::VariableOutOfRange { variable: v, n_vars }),
        None => match supports_outside(supports, n_vars, supports.len()) {
            Some(v) => Err(ProductError::VariableOutOfRange { variable: v, n_vars }),
            None => if supports.len() == 0 {
                Err(ProductError::EmptyTransitionSet)
            } else {
                Ok(plan_of(supports, keep, n_vars))
            },
        },
    }
}

/// A single function with valid variables: its partition tree has no room
/// for the root's parent, and planning does not return.
pub open spec fn plan_panics(supports: Seq<(usize, Seq<usize>)>, keep: Seq<usize>, n_vars: usize) -> bool {
    &&& supports.len() == 1
    &&& smallest_outside(keep, n_vars) is None
    &&& supports_outside(supports, n_vars, supports.len()) is None
}

/// An entry of the queue after `k` merges of `n` functions.
pub open spec fn entry_ok(f: FnRec, n_vars: nat, n: nat, k: nat) -> bool {
    &&& f.support.len() == n_vars
    &&& f.partition < 2 * n - 1
    &&& f.cost <= n - 1 + k * n
}

pub open spec fn queue_ok(q: Seq<FnRec>, n_vars: nat, n: nat, k: nat) -> bool {
    forall|i: int| 0 <= i < q.len() ==> #[trigger] entry_ok(q[i], n_vars, n, k)
}

/// The partition counts agree with the queue.
pub open spec fn counts_ok(st: MergeState, n: nat) -> bool {
    &&& st.counts.len() == 2 * n - 1
    &&& forall|p: int| 0 <= p < 2 * n - 1 ==> #[trigger] st.counts[p] == count_part(st.queue, p)
}

proof fn lemma_smooth_len(fn0: FnRec, fn1: FnRec, table: Seq<Seq<usize>>, k: nat)
    requires
        k <= table.len(),
    ensures
        smooth_run(fn0, fn1, table, k).merged.len() == k,
        smooth_run(fn0, fn1, table, k).table.len() == table.len(),
    decreases k,
{
    if k > 0 {
        lemma_smooth_len(fn0, fn1, table, (k - 1) as nat);
    }
}

proof fn lemma_next_bound(j: nat, n: nat)
    requires
        j < 2 * n - 1,
        1 <= pow_below(n) <= n < 2 * pow_below(n),
    ensures
        next_of(j, n) < 2 * n - 1,
{
}

/// One merge keeps the queue entries within bounds and the partition counts
/// in agreement with the queue.
proof fn lemma_merge_step(st: MergeState, n_vars: nat, n: nat, k: nat)
    requires
        st.queue.len() >= 2,
        n >= 2,
        k + 1 <= n - 1,
        n * n <= usize::MAX,
        1 <= pow_below(n) <= n < 2 * pow_below(n),
        st.table.len() == n_vars,
        queue_ok(st.queue, n_vars, n, k),
        counts_ok(st, n),
    ensures
        st.counts[sort_queue(st.queue)[1].partition as int] >= 1,
        merge_step(st, n_vars, n).queue.len() == st.queue.len() - 1,
        merge_step(st, n_vars, n).table.len() == n_vars,
        queue_ok(merge_step(st, n_vars, n).queue, n_vars, n, k + 1),
        counts_ok(merge_step(st, n_vars, n), n),
{
    let q = sort_queue(st.queue);
    lemma_sort_elements(st.queue);
    let q0 = q[0];
    let q1 = q[1];
    let i0 = choose|i: int| 0 <= i < st.queue.len() && #[trigger] q[0] == st.queue[i];
    let i1 = choose|i: int| 0 <= i < st.queue.len() && #[trigger] q[1] == st.queue[i];
    assert(entry_ok(st.queue[i0], n_vars, n, k));
    assert(entry_ok(st.queue[i1], n_vars, n, k));
    let sm = smooth_run(q0, q1, st.table, n_vars);
    lemma_smooth_len(q0, q1, st.table, n_vars);
    let nx = merge_step(st, n_vars, n);
    lemma_next_bound(q0.partition as nat, n);
    assert(q.take(2) + q.skip(2) =~= q);
    assert(q.take(2).drop_last() =~= q.take(1));
    assert(q.take(1).drop_last() =~= Seq::<FnRec>::empty());
    let rest = q.skip(2);
    let new0 = nx.queue.last();
    assert(nx.queue =~= rest.push(new0));
    assert(rest.push(new0).drop_last() =~= rest);
    assert forall|p: int| 0 <= p < 2 * n - 1 implies count_part(q, p) == (if q0.partition == p { 1nat } else { 0nat })
        + (if q1.partition == p { 1nat } else { 0nat }) + count_part(rest, p) && count_part(q, p) == count_part(st.queue, p)
        && count_part(nx.queue, p) == count_part(rest, p) + (if new0.partition == p { 1nat } else { 0nat }) by {
        lemma_sort_count(st.queue, p);
        lemma_count_concat(q.take(2), rest, p);
        assert(q.take(2).last() == q1);
        assert(q.take(1).last() == q0);
        assert(count_part(Seq::<FnRec>::empty(), p) == 0);
        assert(count_part(q.take(1), p) == (if q0.partition == p { 1nat } else { 0nat }));
        assert(count_part(q.take(2), p) == count_part(q.take(1), p) + (if q1.partition == p { 1nat } else { 0nat }));
        assert(count_part(q, p) == count_part(q.take(2), p) + count_part(rest, p));
        assert(rest.push(new0).last() == new0);
        assert(count_part(rest.push(new0), p) == count_part(rest, p) + (if new0.partition == p { 1nat } else { 0nat }));
    }
    assert(st.counts[q1.partition as int] == count_part(st.queue, q1.partition as int));
    assert(count_part(q, q1.partition as int) == (if q0.partition == q1.partition { 1nat } else { 0nat })
        + 1 + count_part(rest, q1.partition as int));
    assert(count_part(q, q0.partition as int) == 1 + (if q1.partition == q0.partition { 1nat } else { 0nat })
        + count_part(rest, q0.partition as int));
    assert(st.counts[q0.partition as int] == count_part(st.queue, q0.partition as int));
    assert forall|p: int| 0 <= p < 2 * n - 1 implies #[trigger] nx.counts[p] == count_part(nx.queue, p) by {
        assert(count_part(q, p) == (if q0.partition == p { 1nat } else { 0nat })
            + (if q1.partition == p { 1nat } else { 0nat }) + count_part(rest, p));
        assert(count_part(q, p) == count_part(st.queue, p));
        assert(count_part(nx.queue, p) == count_part(rest, p) + (if new0.partition == p { 1nat } else { 0nat }));
        assert(st.counts[p] == count_part(st.queue, p));
        let p0 = new0.partition as int;
        assert(count_part(q, p0) == (if q0.partition == p0 { 1nat } else { 0nat })
            + (if q1.partition == p0 { 1nat } else { 0nat }) + count_part(rest, p0));
        assert(st.counts[p0] == count_part(st.queue, p0));
    }
    assert forall|i: int| 0 <= i < nx.queue.len() implies #[trigger] entry_ok(nx.queue[i], n_vars, n, k + 1) by {
        assert(k * n + n == (k + 1) * n) by (nonlinear_arith);
        if i < rest.len() {
            assert(nx.queue[i] == q[i + 2]);
            let w = choose|w: int| 0 <= w < st.queue.len() && #[trigger] q[i + 2] == st.queue[w];
            assert(entry_ok(st.queue[w], n_vars, n, k));
            assert(k * n <= (k + 1) * n) by (nonlinear_arith) requires n >= 0;
        } else {
            assert(nx.queue[i] == new0);
            assert((k + 1) * n <= (n - 1) * n) by (nonlinear_arith) requires k + 1 <= n - 1;
            assert((n - 1) * n == n * n - n) by (nonlinear_arith);
        }
    }
}

/// Plans the incremental product of the functions: validates the kept
/// variables and the supports, smooths away each variable that one function
/// alone depends on, then merges the functions two at a time in the order of
/// a binary tree of partitions, smoothing each variable once the last two
/// functions that depend on it have been merged.
pub fn plan_incremental_and_smooth(supports: &[FunctionSupport], keep_variables: &[usize], n_vars: usize)
    -> (r: Result<ProductMergePlan, ProductError>)
    requires
        supports@.len() * supports@.len() <= usize::MAX,
        !plan_panics(pairs(supports@), keep_variables@, n_vars),
    ensures
        plan_result_view(r) == plan_result(pairs(supports@), keep_variables@, n_vars),
{
    match validate_set(keep_variables, n_vars) {
        Err(e) => {
            return Err(e);
        },
        Ok(_) => {},
    }
    match validate_function_supports(supports, n_vars) {
        Err(e) => {
            return Err(e);
        },
        Ok(_) => {},
    }
    let n = supports.len();
    if n == 0 {
        return Err(ProductError::EmptyTransitionSet);
    }
    assert(n >= 2);
    assert(n <= usize::MAX / 2) by (nonlinear_arith)
        requires
            n * n <= usize::MAX,
            n >= 2,
    ;
    let keep = mask_from(keep_variables, n_vars);
    let pb = largest_power_below(n);
    let x = n - pb;
    let ghost fns0 = initial_fns(pairs(supports@), n_vars as nat);
    let mut fns: Vec<FnInfo> = Vec::new();
    for i in 0..n
        invariant
            n == supports@.len(),
            n >= 2,
            2 * n <= usize::MAX,
            x == n - pow_below(n as nat),
            1 <= pow_below(n as nat) <= n,
            fns0 == initial_fns(pairs(supports@), n_vars as nat),
            forall|a: int, j: int| 0 <= a < supports@.len() && 0 <= j < supports@[a].variables@.len()
                ==> #[trigger] supports@[a].variables@[j] < n_vars,
            fns@.len() == i,
            forall|j: int| 0 <= j < i ==> fn_view(#[trigger] fns@[j]) == fns0[j] && fns@[j].support@.len() == n_vars
                && fns@[j].partition < 2 * n - 1 && fns@[j].cost == j,
    {
        let support = mask_from(supports[i].variables.as_slice(), n_vars);
        let partition = leaf_partition(i, n, x);
        fns.push(FnInfo { fnid: supports[i].fnid, support, partition, cost: i });
    }
    assert(fns_view(fns@) =~= fns0);
    let mut table = extract_var_table(&fns, &keep, n_vars);
    proof {
        lemma_build_table(fns0, keep@, n_vars as nat, n as nat);
    }
    let ghost fns_before = fns@;
    let lonely_smoothing = smooth_lonely_variables(&mut fns, &mut table, n_vars);
    let ghost lone = initial_lonely(pairs(supports@), keep_variables@, n_vars as nat);
    assert(fns_view(fns@) == lone.fns);
    let mut counts: Vec<usize> = Vec::new();
    for p in 0..2 * n - 1
        invariant
            counts@.len() == p,
            forall|w: int| 0 <= w < p ==> #[trigger] counts@[w] == 0,
    {
        counts.push(0);
    }
    for i in 0..n
        invariant
            n == fns@.len(),
            counts@.len() == 2 * n - 1,
            forall|j: int| 0 <= j < fns@.len() ==> (#[trigger] fns@[j]).partition < 2 * n - 1,
            forall|p: int| 0 <= p < 2 * n - 1 ==> #[trigger] counts@[p] == count_part(fns_view(fns@).take(i as int), p),
    {
        let ghost fv = fns_view(fns@);
        assert(fv.take(i + 1).drop_last() =~= fv.take(i as int));
        assert(fv.take(i + 1).last() == fn_view(fns@[i as int]));
        let part = fns[i].partition;
        proof {
            lemma_count_le(fv.take(i as int), part as int);
        }
        let c = counts[part];
        counts.set(part, c + 1);
    }
    let ghost st0 = initial_merge_state(pairs(supports@), keep_variables@, n_vars as nat);
    assert(fns_view(fns@).take(n as int) =~= fns_view(fns@));
    assert forall|i: int| 0 <= i < st0.queue.len() implies #[trigger] entry_ok(st0.queue[i], n_vars as nat, n as nat, 0) by {
        assert(st0.queue[i] == fn_view(fns@[i]));
        assert(fns@[i].partition == fns_before[i].partition);
    }
    let mut queue = fns;
    let mut merges: Vec<MergeStep> = Vec::new();
    let mut k: usize = 0;
    assert(merges_view(merges@) =~= st0.merges);
    while k + 1 < n
        invariant
            2 <= n,
            n * n <= usize::MAX,
            2 * n <= usize::MAX,
            k + 1 <= n,
            1 <= pow_below(n as nat) <= n < 2 * pow_below(n as nat),
            x == n - pow_below(n as nat),
            queue@.len() == n - k,
            fns_view(queue@) == merge_run(st0, n_vars as nat, n as nat, k as nat).queue,
            table@.len() == n_vars,
            table_view(table@) == merge_run(st0, n_vars as nat, n as nat, k as nat).table,
            counts@.len() == 2 * n - 1,
            forall|p: int| 0 <= p < 2 * n - 1 ==> #[trigger] counts@[p] == merge_run(st0, n_vars as nat, n as nat, k as nat).counts[p],
            merges_view(merges@) == merge_run(st0, n_vars as nat, n as nat, k as nat).merges,
            queue_ok(merge_run(st0, n_vars as nat, n as nat, k as nat).queue, n_vars as nat, n as nat, k as nat),
            counts_ok(merge_run(st0, n_vars as nat, n as nat, k as nat), n as nat),
        decreases n - k,
    {
        let ghost st = merge_run(st0, n_vars as nat, n as nat, k as nat);
        let ghost nx = merge_step(st, n_vars as nat, n as nat);
        proof {
            lemma_merge_step(st, n_vars as nat, n as nat, k as nat);
            lemma_sort_elements(st.queue);
        }
        let ghost q = sort_queue(st.queue);
        let mut rest = sort_fns(queue);
        let ghost sv = rest@;
        assert(fns_view(sv)[0] == q[0] && fns_view(sv)[1] == q[1]);
        let fn0 = rest.remove(0);
        let fn1 = rest.remove(0);
        assert(rest@ =~= sv.skip(2));
        proof {
            let i0 = choose|i: int| 0 <= i < st.queue.len() && #[trigger] q[0] == st.queue[i];
            let i1 = choose|i: int| 0 <= i < st.queue.len() && #[trigger] q[1] == st.queue[i];
            assert(entry_ok(st.queue[i0], n_vars as nat, n as nat, k as nat));
            assert(entry_ok(st.queue[i1], n_vars as nat, n as nat, k as nat));
        }
        let (smoothed, moved, merged) = smooth_vars_extract(&fn0, &fn1, &mut table, n_vars);
        let c1 = counts[fn1.partition];
        counts.set(fn1.partition, c1 - 1);
        let mut p0 = fn0.partition;
        if counts[fn0.partition] == 1 {
            counts.set(fn0.partition, 0);
            p0 = next_partition(fn0.partition, n, x);
            let c = counts[p0];
            proof {
                lemma_count_le(nx.queue, p0 as int);
            }
            assert(nx.counts[p0 as int] == c + 1);
            counts.set(p0, c + 1);
        }
        assert(fn0.cost + n <= usize::MAX) by (nonlinear_arith)
            requires
                fn0.cost <= n - 1 + k * n,
                k + 1 <= n - 1,
                n * n <= usize::MAX,
        ;
        let target_partition_before = fn0.partition;
        let absorbed_partition = fn1.partition;
        let new0 = FnInfo { fnid: fn0.fnid, support: merged, partition: p0, cost: fn0.cost + n };
        let step = MergeStep {
            absorbed_fnid: fn1.fnid,
            target_fnid: fn0.fnid,
            smoothed_variables: smoothed,
            moved_variables: moved,
            target_partition_before,
            absorbed_partition,
            target_partition_after: p0,
            target_cost_after: new0.cost,
        };
        let ghost mb = merges@;
        merges.push(step);
        assert(merges_view(merges@) =~= merges_view(mb).push(merge_view(step)));
        let ghost rb = rest@;
        rest.push(new0);
        assert(fns_view(rest@) =~= fns_view(rb).push(fn_view(new0)));
        assert(fns_view(rb) =~= q.skip(2));
        queue = rest;
        assert(fns_view(queue@) =~= nx.queue);
        assert(merges_view(merges@) =~= nx.merges);
        assert forall|p: int| 0 <= p < 2 * n - 1 implies #[trigger] counts@[p] == nx.counts[p] by {
        }
        k = k + 1;
    }
    let ghost st = merge_run(st0, n_vars as nat, n as nat, k as nat);
    let sorted = sort_fns(queue);
    proof {
        lemma_sort_elements(st.queue);
    }
    assert(fns_view(sorted@)[0] == fn_view(sorted@[0]));
    let final_support = members_of(&sorted[0].support);
    let plan = ProductMergePlan {
        initial_function_count: n,
        lonely_smoothing,
        merges,
        final_fnid: sorted[0].fnid,
        final_support,
    };
    Ok(plan)
}

proof fn lemma_smallest_outside_none(s: Seq<usize>, w: usize)
    ensures
        smallest_outside(s, w) is None <==> forall|i: int| 0 <= i < s.len() ==> s[i] < w,
    decreases s.len(),
{
    if s.len() > 0 {
        lemma_smallest_outside_none(s.drop_last(), w);
        assert forall|i: int| 0 <= i < s.len() - 1 implies s.drop_last()[i] == s[i] by {}
    }
}

fn validate_state_var_arity(input_vars: usize, output_vars: usize) -> (r: Result<(), ProductError>)
    ensures
        r == (if input_vars == output_vars {
            Ok::<(), ProductError>(())
        } else {
            Err(ProductError::StateVariableArityMismatch { input_vars, output_vars })
        }),
{
    if input_vars != output_vars {
        return Err(ProductError::StateVariableArityMismatch { input_vars, output_vars });
    }
    Ok(())
}

/// What the pairs `from[i] -> to[i]` among the first `k` make of `v`: the
/// last pair from `v` wins; `v` stays when none is.
pub open spec fn subst_upto(from: Seq<usize>, to: Seq<usize>, v: usize, k: nat) -> usize
    decreases k,
{
    if k == 0 {
        v
    } else if from[k - 1] == v {
        to[k - 1]
    } else {
        subst_upto(from, to, v, (k - 1) as nat)
    }
}

pub open spec fn substituted(from: Seq<usize>, to: Seq<usize>, v: usize) -> usize {
    subst_upto(from, to, v, from.len())
}

/// Each variable of `s` substituted.
pub open spec fn substitution_image(s: Seq<usize>, from: Seq<usize>, to: Seq<usize>) -> Seq<usize> {
    Seq::new(s.len(), |i: int| substituted(from, to, s[i]))
}

fn substitute_var(from: &[usize], to: &[usize], v: usize) -> (r: usize)
    requires
        from@.len() == to@.len(),
    ensures
        r == substituted(from@, to@, v),
{
    let mut k = from.len();
    while k > 0
        invariant
            k <= from@.len(),
            from@.len() == to@.len(),
            substituted(from@, to@, v) == subst_upto(from@, to@, v, k as nat),
        decreases k,
    {
        if from[k - 1] == v {
            return to[k - 1];
        }
        k = k - 1;
    }
    v
}

/// The support with each variable of `from` replaced by the matching one of
/// `to`, as a sorted set.
fn substitute_support(support: &[usize], from: &[usize], to: &[usize]) -> (r: Result<Vec<usize>, ProductError>)
    ensures
        from@.len() != to@.len() ==> r == Err::<Vec<usize>, ProductError>(
            ProductError::StateVariableArityMismatch { input_vars: from@.len() as usize, output_vars: to@.len() as usize },
        ),
        from@.len() == to@.len() ==> (r matches Ok(out) && out@ == sorted_of(substitution_image(support@, from@, to@))
            && sorted_set(out@) && forall|y: usize| out@.contains(y) <==> substitution_image(support@, from@, to@).contains(y)),
{
    match validate_state_var_arity(from.len(), to.len()) {
        Err(e) => {
            return Err(e);
        },
        Ok(_) => {},
    }
    let mut img: Vec<usize> = Vec::new();
    for i in 0..support.len()
        invariant
            from@.len() == to@.len(),
            img@.len() == i,
            forall|j: int| 0 <= j < i ==> img@[j] == substituted(from@, to@, #[trigger] support@[j]),
    {
        let y = substitute_var(from, to, support[i]);
        img.push(y);
    }
    assert(img@ =~= substitution_image(support@, from@, to@));
    Ok(sorted_set_of(img.as_slice()))
}

fn copy_slice(v: &[usize]) -> (r: Vec<usize>)
    ensures
        r@ == v@,
{
    let mut out: Vec<usize> = Vec::new();
    for k in 0..v.len()
        invariant
            out@ == v@.take(k as int),
    {
        out.push(v[k]);
        assert(v@.take(k + 1) =~= v@.take(k as int).push(v@[k as int]));
    }
    assert(v@.take(v@.len() as int) =~= v@);
    out
}

fn copy_support(f: &FunctionSupport) -> (r: FunctionSupport)
    ensures
        pair_of(r) == pair_of(*f),
{
    FunctionSupport { fnid: f.fnid, variables: copy_ids(&f.variables) }
}

fn copy_supports(v: &Vec<FunctionSupport>) -> (r: Vec<FunctionSupport>)
    ensures
        pairs(r@) == pairs(v@),
{
    let mut out: Vec<FunctionSupport> = Vec::new();
    for k in 0..v.len()
        invariant
            out@.len() == k,
            forall|j: int| 0 <= j < k ==> pair_of(#[trigger] out@[j]) == pair_of(v@[j]),
    {
        out.push(copy_support(&v[k]));
    }
    assert(pairs(out@) =~= pairs(v@));
    out
}

/// The data of a range computation.
#[derive(Clone, Debug, Eq, PartialEq)]
pub struct ProductRangeData {
    pub init_state: FunctionSupport,
    pub external_outputs: Vec<FunctionSupport>,
    pub transition_outputs: Vec<FunctionSupport>,
    pub smoothing_inputs: Vec<usize>,
    pub input_vars: Vec<usize>,
    pub output_vars: Vec<usize>,
    pub pi_inputs: Vec<usize>,
}

/// An image: the product's plan and the support of the result before and
/// after the state variables are substituted.
#[derive(Clone, Debug, Eq, PartialEq)]
pub struct ProductImage {
    pub product: ProductMergePlan,
    pub support_before_substitution: Vec<usize>,
    pub support_after_substitution: Vec<usize>,
}

#[derive(Clone, Debug, Eq, PartialEq)]
pub struct ProductOutputCheck {
    pub ok: bool,
    pub failing_index: Option<usize>,
}

/// The error that allocating range data meets first: the initial state, the
/// external then transition outputs, the smoothing inputs (each set by its
/// smallest variable out of range), the input then output variables (each
/// list by its first), then their counts.
pub open spec fn alloc_error(
    init: (usize, Seq<usize>),
    external: Seq<(usize, Seq<usize>)>,
    transition: Seq<(usize, Seq<usize>)>,
    smoothing: Seq<usize>,
    input_vars: Seq<usize>,
    output_vars: Seq<usize>,
    n_vars: usize,
) -> Option<ProductError> {
    match smallest_outside(init.1, n_vars) {
        Some(v) => Some(ProductError::VariableOutOfRange { variable: v, n_vars }),
        None => match supports_outside(external, n_vars, external.len()) {
            Some(v) => Some(ProductError::VariableOutOfRange { variable: v, n_vars }),
            None => match supports_outside(transition, n_vars, transition.len()) {
                Some(v) => Some(ProductError::VariableOutOfRange { variable: v, n_vars }),
                None => match smallest_outside(smoothing, n_vars) {
                    Some(v) => Some(ProductError::VariableOutOfRange { variable: v, n_vars }),
                    None => match outside(input_vars, n_vars) {
                        Some(v) => Some(ProductError::VariableOutOfRange { variable: v, n_vars }),
                        None => match outside(output_vars, n_vars) {
                            Some(v) => Some(ProductError::VariableOutOfRange { variable: v, n_vars }),
                            None => if input_vars.len() != output_vars.len() {
                                Some(ProductError::StateVariableArityMismatch {
                                    input_vars: input_vars.len() as usize,
                                    output_vars: output_vars.len() as usize,
                                })
                            } else {
                                None
                            },
                        },
                    },
                },
            },
        },
    }
}

/// Validates and gathers the data of a range computation; the primary
/// inputs are the input variables.
pub fn product_alloc_range_data(
    init_state: FunctionSupport,
    external_outputs: Vec<FunctionSupport>,
    transition_outputs: Vec<FunctionSupport>,
    smoothing_inputs: &[usize],
    input_vars: &[usize],
    output_vars: &[usize],
    n_vars: usize,
) -> (r: Result<ProductRangeData, ProductError>)
    ensures
        match alloc_error(
            pair_of(init_state),
            pairs(external_outputs@),
            pairs(transition_outputs@),
            smoothing_inputs@,
            input_vars@,
            output_vars@,
            n_vars,
        ) {
            Some(e) => r == Err::<ProductRangeData, ProductError>(e),
            None => r matches Ok(d) && d.init_state == init_state && d.external_outputs@ == external_outputs@
                && d.transition_outputs@ == transition_outputs@ && d.smoothing_inputs@ == sorted_of(smoothing_inputs@)
                && d.input_vars@ == input_vars@ && d.output_vars@ == output_vars@ && d.pi_inputs@ == input_vars@,
        },
{
    match validate_set(init_state.variables.as_slice(), n_vars) {
        Err(e) => {
            return Err(e);
        },
        Ok(_) => {},
    }
    match validate_function_supports(external_outputs.as_slice(), n_vars) {
        Err(e) => {
            return Err(e);
        },
        Ok(_) => {},
    }
    match validate_function_supports(transition_outputs.as_slice(), n_vars) {
        Err(e) => {
            return Err(e);
        },
        Ok(_) => {},
    }
    match validate_set(smoothing_inputs, n_vars) {
        Err(e) => {
            return Err(e);
        },
        Ok(_) => {},
    }
    match validate_variables(input_vars, n_vars) {
        Err(e) => {
            return Err(e);
        },
        Ok(_) => {},
    }
    match validate_variables(output_vars, n_vars) {
        Err(e) => {
            return Err(e);
        },
        Ok(_) => {},
    }
    match validate_state_var_arity(input_vars.len(), output_vars.len()) {
        Err(e) => {
            return Err(e);
        },
        Ok(_) => {},
    }
    Ok(ProductRangeData {
        init_state,
        external_outputs,
        transition_outputs,
        smoothing_inputs: sorted_set_of(smoothing_inputs),
        input_vars: copy_slice(input_vars),
        output_vars: copy_slice(output_vars),
        pi_inputs: copy_slice(input_vars),
    })
}

/// Every variable of `cur` is one of `out`.
pub open spec fn covers(cur: Seq<usize>, out: Seq<usize>) -> bool {
    forall|i: int| 0 <= i < cur.len() ==> out.contains(cur[i])
}

/// The first of the first `k` outputs that does not cover `cur`.
pub open spec fn first_uncovered(cur: Seq<usize>, outs: Seq<(usize, Seq<usize>)>, k: nat) -> Option<usize>
    decreases k,
{
    if k == 0 {
        None
    } else {
        match first_uncovered(cur, outs, (k - 1) as nat) {
            Some(i) => Some(i),
            None => if covers(cur, outs[k - 1].1) { None } else { Some((k - 1) as usize) },
        }
    }
}

proof fn lemma_first_uncovered_stays(cur: Seq<usize>, outs: Seq<(usize, Seq<usize>)>, k: nat, m: nat)
    requires
        k <= m,
        first_uncovered(cur, outs, k) is Some,
    ensures
        first_uncovered(cur, outs, m) == first_uncovered(cur, outs, k),
    decreases m - k,
{
    if k < m {
        lemma_first_uncovered_stays(cur, outs, k, (m - 1) as nat);
    }
}

fn contains_var(v: &Vec<usize>, x: usize) -> (r: bool)
    ensures
        r == v@.contains(x),
{
    for k in 0..v.len()
        invariant
            forall|i: int| 0 <= i < k ==> v@[i] != x,
    {
        if v[k] == x {
            return true;
        }
    }
    false
}

fn covers_all(cur: &Vec<usize>, out: &Vec<usize>) -> (r: bool)
    ensures
        r == covers(cur@, out@),
{
    for k in 0..cur.len()
        invariant
            forall|i: int| 0 <= i < k ==> out@.contains(cur@[i]),
    {
        if !contains_var(out, cur[k]) {
            return false;
        }
    }
    true
}

/// Checks the current set against the external outputs: the first output
/// whose support does not contain the current set's fails the check.
pub fn product_check_output(current_set: &FunctionSupport, data: &ProductRangeData) -> (r: ProductOutputCheck)
    ensures
        match first_uncovered(current_set.variables@, pairs(data.external_outputs@), data.external_outputs@.len()) {
            Some(i) => r == (ProductOutputCheck { ok: false, failing_index: Some(i) }),
            None => r == (ProductOutputCheck { ok: true, failing_index: None }),
        },
{
    let ghost outs = pairs(data.external_outputs@);
    for index in 0..data.external_outputs.len()
        invariant
            outs == pairs(data.external_outputs@),
            first_uncovered(current_set.variables@, outs, index as nat) is None,
    {
        assert(outs[index as int].1 == data.external_outputs@[index as int].variables@);
        if !covers_all(&current_set.variables, &data.external_outputs[index].variables) {
            proof {
                lemma_first_uncovered_stays(current_set.variables@, outs, (index + 1) as nat, outs.len());
            }
            return ProductOutputCheck { ok: false, failing_index: Some(index) };
        }
    }
    ProductOutputCheck { ok: true, failing_index: None }
}

/// The product of the transition functions and the current set, smoothing
/// all but the output (next-state) variables; the result's support is then
/// moved from the output variables to the input variables.
pub fn product_compute_next_states(current_set: &FunctionSupport, data: &ProductRangeData, n_vars: usize)
    -> (r: Result<ProductImage, ProductError>)
    requires
        (data.transition_outputs@.len() + 1) * (data.transition_outputs@.len() + 1) <= usize::MAX,
        !(data.transition_outputs@.len() == 0 && smallest_outside(current_set.variables@, n_vars) is None
            && smallest_outside(data.output_vars@, n_vars) is None),
    ensures
        match smallest_outside(current_set.variables@, n_vars) {
            Some(v) => r == Err::<ProductImage, ProductError>(ProductError::VariableOutOfRange { variable: v, n_vars }),
            None => match plan_result(pairs(data.transition_outputs@).push(pair_of(*current_set)), data.output_vars@, n_vars) {
                Err(e) => r == Err::<ProductImage, ProductError>(e),
                Ok(pv) => if data.output_vars@.len() != data.input_vars@.len() {
                    r == Err::<ProductImage, ProductError>(ProductError::StateVariableArityMismatch {
                        input_vars: data.output_vars@.len() as usize,
                        output_vars: data.input_vars@.len() as usize,
                    })
                } else {
                    r matches Ok(img) && plan_view(img.product) == pv && img.support_before_substitution@ == pv.final_support
                        && img.support_after_substitution@ == sorted_of(
                        substitution_image(pv.final_support, data.output_vars@, data.input_vars@),
                    )
                },
            },
        },
{
    match validate_set(current_set.variables.as_slice(), n_vars) {
        Err(e) => {
            return Err(e);
        },
        Ok(_) => {},
    }
    let mut functions = copy_supports(&data.transition_outputs);
    let ghost before = functions@;
    functions.push(copy_support(current_set));
    assert(pairs(functions@) =~= pairs(data.transition_outputs@).push(pair_of(*current_set))) by {
        assert(pairs(before) == pairs(data.transition_outputs@));
        assert forall|j: int| 0 <= j < before.len() implies pairs(functions@)[j] == pairs(data.transition_outputs@)[j] by {
            assert(functions@[j] == before[j]);
            assert(pairs(before)[j] == pair_of(before[j]));
        }
    }
    proof {
        if functions@.len() == 1 {
            assert(pairs(functions@)[0].1 == current_set.variables@);
            assert(supports_outside(pairs(functions@), n_vars, 0) is None);
            assert(supports_outside(pairs(functions@), n_vars, 1) == smallest_outside(current_set.variables@, n_vars));
        }
    }
    let product = match plan_incremental_and_smooth(functions.as_slice(), data.output_vars.as_slice(), n_vars) {
        Err(e) => {
            return Err(e);
        },
        Ok(p) => p,
    };
    let support_before_substitution = copy_ids(&product.final_support);
    let support_after_substitution = match substitute_support(
        support_before_substitution.as_slice(),
        data.output_vars.as_slice(),
        data.input_vars.as_slice(),
    ) {
        Err(e) => {
            return Err(e);
        },
        Ok(s) => s,
    };
    Ok(ProductImage { product, support_before_substitution, support_after_substitution })
}

/// The product of the transition functions and the next set, whose support
/// is first moved from the input variables to the output variables,
/// smoothing all but the primary inputs.
pub fn product_compute_reverse_image(next_set: &FunctionSupport, data: &ProductRangeData, n_vars: usize)
    -> (r: Result<ProductImage, ProductError>)
    requires
        (data.transition_outputs@.len() + 1) * (data.transition_outputs@.len() + 1) <= usize::MAX,
        !(data.transition_outputs@.len() == 0 && smallest_outside(next_set.variables@, n_vars) is None
            && data.input_vars@.len() == data.output_vars@.len() && smallest_outside(data.pi_inputs@, n_vars) is None
            && forall|i: int| 0 <= i < next_set.variables@.len()
                ==> #[trigger] substituted(data.input_vars@, data.output_vars@, next_set.variables@[i]) < n_vars),
    ensures
        match smallest_outside(next_set.variables@, n_vars) {
            Some(v) => r == Err::<ProductImage, ProductError>(ProductError::VariableOutOfRange { variable: v, n_vars }),
            None => if data.input_vars@.len() != data.output_vars@.len() {
                r == Err::<ProductImage, ProductError>(ProductError::StateVariableArityMismatch {
                    input_vars: data.input_vars@.len() as usize,
                    output_vars: data.output_vars@.len() as usize,
                })
            } else {
                match plan_result(
                    pairs(data.transition_outputs@).push(
                        (next_set.fnid, sorted_of(substitution_image(next_set.variables@, data.input_vars@, data.output_vars@))),
                    ),
                    data.pi_inputs@,
                    n_vars,
                ) {
                    Err(e) => r == Err::<ProductImage, ProductError>(e),
                    Ok(pv) => r matches Ok(img) && plan_view(img.product) == pv
                        && img.support_before_substitution@ == pv.final_support
                        && img.support_after_substitution@ == pv.final_support,
                }
            },
        },
{
    match validate_set(next_set.variables.as_slice(), n_vars) {
        Err(e) => {
            return Err(e);
        },
        Ok(_) => {},
    }
    let next_state_support = match substitute_support(
        next_set.variables.as_slice(),
        data.input_vars.as_slice(),
        data.output_vars.as_slice(),
    ) {
        Err(e) => {
            return Err(e);
        },
        Ok(s) => s,
    };
    let ghost img = substitution_image(next_set.variables@, data.input_vars@, data.output_vars@);
    let last = FunctionSupport::new(next_set.fnid, next_state_support.as_slice());
    proof {
        lemma_sorted_of(next_state_support@, next_state_support@);
    }
    let mut functions = copy_supports(&data.transition_outputs);
    let ghost before = functions@;
    functions.push(last);
    assert(pairs(functions@) =~= pairs(data.transition_outputs@).push((next_set.fnid, sorted_of(img)))) by {
        assert(pairs(before) == pairs(data.transition_outputs@));
        assert forall|j: int| 0 <= j < before.len() implies pairs(functions@)[j] == pairs(data.transition_outputs@)[j] by {
            assert(functions@[j] == before[j]);
            assert(pairs(before)[j] == pair_of(before[j]));
        }
    }
    proof {
        if functions@.len() == 1 && smallest_outside(data.pi_inputs@, n_vars) is None {
            let s = sorted_of(img);
            assert(pairs(functions@)[0].1 == s);
            assert(supports_outside(pairs(functions@), n_vars, 0) is None);
            assert(supports_outside(pairs(functions@), n_vars, 1) == smallest_outside(s, n_vars));
            let i = choose|i: int| 0 <= i < next_set.variables@.len()
                && !(#[trigger] substituted(data.input_vars@, data.output_vars@, next_set.variables@[i]) < n_vars);
            assert(img[i] == substituted(data.input_vars@, data.output_vars@, next_set.variables@[i]));
            assert(img.contains(img[i]));
            assert(s.contains(img[i]));
            lemma_smallest_outside_none(s, n_vars);
        }
    }
    let product = match plan_incremental_and_smooth(functions.as_slice(), data.pi_inputs.as_slice(), n_vars) {
        Err(e) => {
            return Err(e);
        },
        Ok(p) => p,
    };
    let support_before_substitution = copy_ids(&product.final_support);
    let support_after_substitution = copy_ids(&support_before_substitution);
    Ok(ProductImage { product, support_after_substitution, support_before_substitution })
}


/// No id occurs twice.
pub open spec fn no_dup(t: Seq<usize>) -> bool {
    forall|i: int, j: int| 0 <= i < j < t.len() ==> t[i] != t[j]
}

proof fn lemma_table_remove(t: Seq<usize>, x: usize)
    ensures
        forall|y: usize| #[trigger] table_remove(t, x).contains(y) <==> (t.contains(y) && y != x),
        no_dup(t) ==> no_dup(table_remove(t, x)),
        no_dup(t) && t.contains(x) ==> table_remove(t, x).len() == t.len() - 1,
        table_remove(t, x).len() <= t.len(),
    decreases t.len(),
{
    reveal(Seq::filter);
    if t.len() > 0 {
        let r = t.drop_last();
        lemma_table_remove(r, x);
        let fr = table_remove(r, x);
        let ft = table_remove(t, x);
        assert(ft == (if t.last() != x { fr.push(t.last()) } else { fr }));
        assert forall|y: usize| ft.contains(y) <==> (t.contains(y) && y != x) by {
            if ft.contains(y) {
                let k = choose|k: int| 0 <= k < ft.len() && ft[k] == y;
                if k < fr.len() {
                    assert(fr[k] == y);
                    assert(fr.contains(y));
                    let j = choose|j: int| 0 <= j < r.len() && r[j] == y;
                    assert(t[j] == y);
                } else {
                    assert(t[t.len() - 1] == y);
                }
            }
            if t.contains(y) && y != x {
                let j = choose|j: int| 0 <= j < t.len() && t[j] == y;
                if j < r.len() {
                    assert(r[j] == y);
                    assert(fr.contains(y));
                    let k = choose|k: int| 0 <= k < fr.len() && fr[k] == y;
                    assert(ft[k] == y);
                } else {
                    assert(ft[ft.len() - 1] == y);
                }
            }
        }
        if no_dup(t) {
            assert(no_dup(r)) by {
                assert forall|i: int, j: int| 0 <= i < j < r.len() implies r[i] != r[j] by {
                    assert(t[i] != t[j]);
                }
            }
            if t.last() != x {
                assert forall|i: int, j: int| 0 <= i < j < ft.len() implies ft[i] != ft[j] by {
                    if j == ft.len() - 1 && i < fr.len() {
                        if fr[i] == t.last() {
                            assert(fr.contains(fr[i]));
                            let k = choose|k: int| 0 <= k < r.len() && r[k] == fr[i];
                            assert(t[k] == t[t.len() - 1]);
                        }
                    }
                }
                if t.contains(x) {
                    let j = choose|j: int| 0 <= j < t.len() && t[j] == x;
                    assert(r[j] == x);
                    assert(r.contains(x));
                }
            } else {
                if r.contains(x) {
                    let j = choose|j: int| 0 <= j < r.len() && r[j] == x;
                    assert(t[j] == t[t.len() - 1]);
                }
                assert(table_remove(r, x).len() == r.len()) by {
                    lemma_remove_absent(r, x);
                }
            }
        }
    }
}

proof fn lemma_remove_absent(t: Seq<usize>, x: usize)
    requires
        !t.contains(x),
    ensures
        table_remove(t, x) == t,
    decreases t.len(),
{
    reveal(Seq::filter);
    if t.len() > 0 {
        let r = t.drop_last();
        assert(!r.contains(x)) by {
            if r.contains(x) {
                let j = choose|j: int| 0 <= j < r.len() && r[j] == x;
                assert(t[j] == x);
            }
        }
        lemma_remove_absent(r, x);
        assert(t.last() != x) by {
            assert(t[t.len() - 1] == t.last());
        }
        assert(r.push(t.last()) =~= t);
    } else {
        assert(table_remove(t, x) =~= t);
    }
}

proof fn lemma_table_add(t: Seq<usize>, x: usize)
    ensures
        forall|y: usize| #[trigger] table_add(t, x).contains(y) <==> (t.contains(y) || y == x),
        no_dup(t) ==> no_dup(table_add(t, x)),
        table_add(t, x).len() == (if t.contains(x) { t.len() } else { t.len() + 1 }),
{
    if !t.contains(x) {
        let a = t.push(x);
        assert forall|y: usize| a.contains(y) <==> (t.contains(y) || y == x) by {
            if a.contains(y) {
                let k = choose|k: int| 0 <= k < a.len() && a[k] == y;
                if k < t.len() {
                    assert(t[k] == y);
                }
            }
            if t.contains(y) {
                let k = choose|k: int| 0 <= k < t.len() && t[k] == y;
                assert(a[k] == y);
            }
            if y == x {
                assert(a[t.len() as int] == x);
            }
        }
        if no_dup(t) {
            assert forall|i: int, j: int| 0 <= i < j < a.len() implies a[i] != a[j] by {
                if j == t.len() {
                    assert(t.contains(t[i]));
                }
            }
        }
    }
}


/// Some function of the queue with id `id` depends on variable `v`.
pub open spec fn depends(q: Seq<FnRec>, id: usize, v: int) -> bool {
    exists|i: int| 0 <= i < q.len() && q[i].fnid == id && q[i].support[v]
}

/// The table entry of `v` lists the functions that depend on `v`, each once.
pub open spec fn entry_tracks(q: Seq<FnRec>, t: Seq<usize>, v: int) -> bool {
    &&& no_dup(t)
    &&& forall|id: usize| #[trigger] t.contains(id) <==> depends(q, id, v)
}

/// The table's entries are empty for kept variables and list the dependent
/// functions for the others.
pub open spec fn tracks(q: Seq<FnRec>, table: Seq<Seq<usize>>, keep: Seq<bool>, n_vars: nat) -> bool {
    &&& table.len() == n_vars
    &&& forall|v: int| 0 <= v < n_vars ==> if keep[v] { (#[trigger] table[v]).len() == 0 } else { entry_tracks(q, table[v], v) }
}

/// No function id occurs twice in the queue.
pub open spec fn distinct_ids(q: Seq<FnRec>) -> bool {
    forall|i: int, j: int| 0 <= i < q.len() && 0 <= j < q.len() && i != j ==> q[i].fnid != q[j].fnid
}

/// Every function of the queue has a support over the `n_vars` variables.
pub open spec fn widths(q: Seq<FnRec>, n_vars: nat) -> bool {
    forall|i: int| 0 <= i < q.len() ==> (#[trigger] q[i]).support.len() == n_vars
}

proof fn lemma_depends_push(q: Seq<FnRec>, x: FnRec, id: usize, v: int)
    ensures
        depends(q.push(x), id, v) <==> (depends(q, id, v) || (x.fnid == id && x.support[v])),
{
    let p = q.push(x);
    if depends(p, id, v) {
        let i = choose|i: int| 0 <= i < p.len() && p[i].fnid == id && p[i].support[v];
        if i < q.len() {
            assert(q[i] == p[i]);
        }
    }
    if depends(q, id, v) {
        let i = choose|i: int| 0 <= i < q.len() && q[i].fnid == id && q[i].support[v];
        assert(p[i] == q[i]);
    }
    if x.fnid == id && x.support[v] {
        assert(p[q.len() as int] == x);
    }
}

proof fn lemma_build_tracks(fns: Seq<FnRec>, keep: Seq<bool>, n: nat, k: nat)
    requires
        k <= fns.len(),
        keep.len() == n,
        widths(fns, n),
    ensures
        tracks(fns.take(k as int), build_table(fns, keep, n, k), keep, n),
    decreases k,
{
    let t = build_table(fns, keep, n, k);
    if k == 0 {
        assert forall|v: int| 0 <= v < n implies if keep[v] { (#[trigger] t[v]).len() == 0 } else {
            entry_tracks(fns.take(k as int), t[v], v) } by {
            assert(t[v] =~= Seq::<usize>::empty());
            assert forall|id: usize| #[trigger] t[v].contains(id) <==> depends(fns.take(k as int), id, v) by {
                if depends(fns.take(k as int), id, v) {
                    let i = choose|i: int| 0 <= i < fns.take(k as int).len() && fns.take(k as int)[i].fnid == id
                        && fns.take(k as int)[i].support[v];
                }
            }
        }
    } else {
        lemma_build_tracks(fns, keep, n, (k - 1) as nat);
        let prev = build_table(fns, keep, n, (k - 1) as nat);
        let f = fns[k - 1];
        let q0 = fns.take(k - 1);
        assert(fns.take(k as int) =~= q0.push(f));
        assert(f.support.len() == n);
        assert forall|v: int| 0 <= v < n implies if keep[v] { (#[trigger] t[v]).len() == 0 } else {
            entry_tracks(fns.take(k as int), t[v], v) } by {
            assert(keep[v] ==> prev[v].len() == 0);
            if !keep[v] {
                assert(entry_tracks(q0, prev[v], v));
                lemma_table_add(prev[v], f.fnid);
                assert forall|id: usize| #[trigger] t[v].contains(id) <==> depends(fns.take(k as int), id, v) by {
                    lemma_depends_push(q0, f, id, v);
                    assert(prev[v].contains(id) <==> depends(q0, id, v));
                }
            }
        }
    }
}


proof fn lemma_last_with_id_unique(fns: Seq<FnRec>, id: usize, i: int)
    requires
        distinct_ids(fns),
        0 <= i < fns.len(),
        fns[i].fnid == id,
    ensures
        last_with_id(fns, id) == i,
    decreases fns.len(),
{
    if i < fns.len() - 1 {
        let r = fns.drop_last();
        assert(fns.last().fnid != id) by {
            assert(fns[fns.len() - 1] == fns.last());
        }
        assert(distinct_ids(r)) by {
            assert forall|a: int, b: int| 0 <= a < r.len() && 0 <= b < r.len() && a != b implies r[a].fnid != r[b].fnid by {
                assert(r[a] == fns[a] && r[b] == fns[b]);
            }
        }
        assert(r[i] == fns[i]);
        lemma_last_with_id_unique(r, id, i);
    }
}

/// What the lonely pass keeps: the same ids, partitions and costs, supports
/// over the variables, a table that tracks them, and no variable up to `k`
/// with a single dependent function.
pub open spec fn lonely_ok(fns: Seq<FnRec>, st: LonelyState, keep: Seq<bool>, n: nat, k: nat) -> bool {
    &&& st.fns.len() == fns.len()
    &&& forall|i: int| 0 <= i < fns.len() ==> (#[trigger] st.fns[i]).fnid == fns[i].fnid
        && st.fns[i].partition == fns[i].partition && st.fns[i].cost == fns[i].cost
    &&& distinct_ids(st.fns)
    &&& widths(st.fns, n)
    &&& tracks(st.fns, st.table, keep, n)
    &&& forall|v: int| 0 <= v < k && !keep[v] ==> (#[trigger] st.table[v]).len() != 1
}

proof fn lemma_lonely_tracks(fns: Seq<FnRec>, table: Seq<Seq<usize>>, keep: Seq<bool>, n: nat, k: nat)
    requires
        distinct_ids(fns),
        widths(fns, n),
        tracks(fns, table, keep, n),
        keep.len() == n,
        k <= n,
    ensures
        lonely_ok(fns, lonely_run(fns, table, k), keep, n, k),
    decreases k,
{
    if k > 0 {
        lemma_lonely_tracks(fns, table, keep, n, (k - 1) as nat);
        let st = lonely_run(fns, table, (k - 1) as nat);
        let v = k - 1;
        let t = st.table[v];
        if t.len() == 1 {
            assert(!keep[v]);
            assert(entry_tracks(st.fns, t, v));
            let id = t[0];
            assert(t.contains(id));
            assert(depends(st.fns, id, v));
            let i = choose|i: int| 0 <= i < st.fns.len() && st.fns[i].fnid == id && st.fns[i].support[v];
            lemma_last_with_id_unique(st.fns, id, i);
            let f = st.fns[i];
            let nf = FnRec { support: f.support.update(v, false), ..f };
            let nfns = st.fns.update(i, nf);
            let ntable = st.table.update(v, seq![]);
            let nst = lonely_run(fns, table, k);
            assert(nst.fns == nfns && nst.table == ntable);
            assert(widths(nfns, n)) by {
                assert forall|j: int| 0 <= j < nfns.len() implies (#[trigger] nfns[j]).support.len() == n by {
                    assert(st.fns[j].support.len() == n);
                }
            }
            assert(distinct_ids(nfns)) by {
                assert forall|a: int, b: int| 0 <= a < nfns.len() && 0 <= b < nfns.len() && a != b implies nfns[a].fnid != nfns[b].fnid by {
                    assert(nfns[a].fnid == st.fns[a].fnid);
                    assert(nfns[b].fnid == st.fns[b].fnid);
                }
            }
            assert forall|w: int| 0 <= w < n implies if keep[w] { (#[trigger] ntable[w]).len() == 0 } else {
                entry_tracks(nfns, ntable[w], w) } by {
                if w != v {
                    assert(ntable[w] == st.table[w]);
                    if !keep[w] {
                        assert(entry_tracks(st.fns, st.table[w], w));
                        assert forall|id2: usize| #[trigger] ntable[w].contains(id2) <==> depends(nfns, id2, w) by {
                            if depends(nfns, id2, w) {
                                let j = choose|j: int| 0 <= j < nfns.len() && nfns[j].fnid == id2 && nfns[j].support[w];
                                assert(st.fns[j].fnid == id2 && st.fns[j].support[w]);
                            }
                            if depends(st.fns, id2, w) {
                                let j = choose|j: int| 0 <= j < st.fns.len() && st.fns[j].fnid == id2 && st.fns[j].support[w];
                                assert(nfns[j].fnid == id2 && nfns[j].support[w]);
                            }
                        }
                    }
                } else {
                    assert(ntable[w] =~= Seq::<usize>::empty());
                    assert forall|id2: usize| #[trigger] ntable[w].contains(id2) <==> depends(nfns, id2, w) by {
                        if depends(nfns, id2, w) {
                            let j = choose|j: int| 0 <= j < nfns.len() && nfns[j].fnid == id2 && nfns[j].support[w];
                            if j == i {
                                assert(!nfns[j].support[w]);
                            } else {
                                assert(st.fns[j].support[w]);
                                assert(depends(st.fns, st.fns[j].fnid, w));
                                assert(t.contains(st.fns[j].fnid));
                                let m = choose|m: int| 0 <= m < t.len() && t[m] == st.fns[j].fnid;
                                assert(st.fns[j].fnid == id);
                            }
                        }
                    }
                }
            }
            assert forall|w: int| 0 <= w < k && !keep[w] implies (#[trigger] ntable[w]).len() != 1 by {
                if w != v {
                    assert(ntable[w] == st.table[w]);
                }
            }
        }
    }
}


proof fn lemma_sort_contains(q: Seq<FnRec>)
    ensures
        sort_queue(q).len() == q.len(),
        forall|i: int| #![trigger q[i]] 0 <= i < q.len() ==> exists|j: int| 0 <= j < q.len() && #[trigger] sort_queue(q)[j] == q[i],
    decreases q.len(),
{
    lemma_sort_count(q, 0);
    if q.len() > 0 {
        let r = q.drop_last();
        lemma_sort_contains(r);
        let s = sort_queue(r);
        let x = q.last();
        lemma_insert_key(s, x);
        let p = scan_pos(s, x);
        let sq = sort_queue(q);
        assert(sq == s.take(p).push(x) + s.skip(p));
        assert forall|i: int| #![trigger q[i]] 0 <= i < q.len() implies exists|j: int| 0 <= j < q.len() && #[trigger] sq[j] == q[i] by {
            if i < r.len() {
                assert(q[i] == r[i]);
                let j = choose|j: int| 0 <= j < r.len() && #[trigger] s[j] == r[i];
                if j < p {
                    assert(sq[j] == s[j]);
                } else {
                    assert(sq[j + 1] == s[j]);
                }
            } else {
                assert(sq[p] == x);
            }
        }
    }
}

proof fn lemma_sort_distinct(q: Seq<FnRec>)
    requires
        distinct_ids(q),
    ensures
        distinct_ids(sort_queue(q)),
    decreases q.len(),
{
    if q.len() > 0 {
        let r = q.drop_last();
        assert(distinct_ids(r)) by {
            assert forall|a: int, b: int| 0 <= a < r.len() && 0 <= b < r.len() && a != b implies r[a].fnid != r[b].fnid by {
                assert(r[a] == q[a] && r[b] == q[b]);
            }
        }
        lemma_sort_distinct(r);
        lemma_sort_elements(r);
        let s = sort_queue(r);
        let x = q.last();
        lemma_insert_key(s, x);
        let p = scan_pos(s, x);
        let sq = sort_queue(q);
        assert(sq == s.take(p).push(x) + s.skip(p));
        assert forall|a: int| 0 <= a < s.len() implies (#[trigger] s[a]).fnid != x.fnid by {
            let w = choose|w: int| 0 <= w < r.len() && s[a] == r[w];
            assert(q[w] == r[w]);
            assert(x == q[q.len() - 1]);
        }
        assert forall|a: int, b: int| 0 <= a < sq.len() && 0 <= b < sq.len() && a != b implies sq[a].fnid != sq[b].fnid by {
            if a < p {
                assert(sq[a] == s[a]);
            } else if a > p {
                assert(sq[a] == s[a - 1]);
            } else {
                assert(sq[a] == x);
            }
            if b < p {
                assert(sq[b] == s[b]);
            } else if b > p {
                assert(sq[b] == s[b - 1]);
            } else {
                assert(sq[b] == x);
            }
        }
    }
}


/// The table entry of variable `v` after merging `fn1` into `fn0`.
pub open spec fn step_table(fn0: FnRec, fn1: FnRec, t: Seq<usize>, v: int) -> Seq<usize> {
    if t.len() == 0 || !fn1.support[v] {
        t
    } else if !fn0.support[v] {
        table_add(table_remove(t, fn1.fnid), fn0.fnid)
    } else if t.len() == 2 {
        seq![]
    } else {
        table_remove(t, fn1.fnid)
    }
}

/// Whether the merged function depends on variable `v`.
pub open spec fn step_merged(fn0: FnRec, fn1: FnRec, t: Seq<usize>, v: int) -> bool {
    if t.len() == 0 || !fn1.support[v] {
        fn0.support[v] || fn1.support[v]
    } else if !fn0.support[v] {
        true
    } else if t.len() == 2 {
        false
    } else {
        true
    }
}

proof fn lemma_smooth_frame(fn0: FnRec, fn1: FnRec, table: Seq<Seq<usize>>, k: nat)
    requires
        k <= table.len(),
    ensures
        smooth_run(fn0, fn1, table, k).table.len() == table.len(),
        smooth_run(fn0, fn1, table, k).merged.len() == k,
        forall|w: int| k <= w < table.len() ==> #[trigger] smooth_run(fn0, fn1, table, k).table[w] == table[w],
        forall|v: int| 0 <= v < k ==> #[trigger] smooth_run(fn0, fn1, table, k).table[v] == step_table(fn0, fn1, table[v], v)
            && smooth_run(fn0, fn1, table, k).merged[v] == step_merged(fn0, fn1, table[v], v),
    decreases k,
{
    if k > 0 {
        lemma_smooth_frame(fn0, fn1, table, (k - 1) as nat);
        let p = smooth_run(fn0, fn1, table, (k - 1) as nat);
        let c = smooth_run(fn0, fn1, table, k);
        let v = k - 1;
        assert(p.table[v] == table[v]);
        assert forall|w: int| k <= w < table.len() implies #[trigger] c.table[w] == table[w] by {
            assert(p.table[w] == table[w]);
        }
        assert forall|u: int| 0 <= u < k implies #[trigger] c.table[u] == step_table(fn0, fn1, table[u], u)
            && c.merged[u] == step_merged(fn0, fn1, table[u], u) by {
            if u < v {
                assert(p.table[u] == step_table(fn0, fn1, table[u], u));
            }
        }
    }
}

proof fn lemma_depends_split(q: Seq<FnRec>, id: usize, v: int)
    requires
        q.len() >= 2,
    ensures
        depends(q, id, v) <==> ((q[0].fnid == id && q[0].support[v]) || (q[1].fnid == id && q[1].support[v])
            || depends(q.skip(2), id, v)),
{
    let r = q.skip(2);
    if depends(q, id, v) {
        let i = choose|i: int| 0 <= i < q.len() && q[i].fnid == id && q[i].support[v];
        if i >= 2 {
            assert(r[i - 2] == q[i]);
        }
    }
    if depends(r, id, v) {
        let i = choose|i: int| 0 <= i < r.len() && r[i].fnid == id && r[i].support[v];
        assert(q[i + 2] == r[i]);
    }
}

/// One variable through a merge of the first two functions of a sorted
/// queue: its new entry lists the functions of the new queue that depend on
/// it, once each, and never one alone.
proof fn lemma_step_var(q: Seq<FnRec>, t: Seq<usize>, v: int)
    requires
        q.len() >= 2,
        distinct_ids(q),
        entry_tracks(q, t, v),
        t.len() != 1,
    ensures
        no_dup(step_table(q[0], q[1], t, v)),
        step_table(q[0], q[1], t, v).len() != 1,
        forall|id: usize| #[trigger] step_table(q[0], q[1], t, v).contains(id) <==> (depends(q.skip(2), id, v)
            || (id == q[0].fnid && step_merged(q[0], q[1], t, v))),
{
    let f0 = q[0];
    let f1 = q[1];
    let r = q.skip(2);
    let nt = step_table(f0, f1, t, v);
    let m = step_merged(f0, f1, t, v);
    assert(f0.fnid != f1.fnid);
    assert(!depends(r, f0.fnid, v)) by {
        if depends(r, f0.fnid, v) {
            let i = choose|i: int| 0 <= i < r.len() && r[i].fnid == f0.fnid && r[i].support[v];
            assert(q[i + 2] == r[i]);
        }
    }
    assert(!depends(r, f1.fnid, v)) by {
        if depends(r, f1.fnid, v) {
            let i = choose|i: int| 0 <= i < r.len() && r[i].fnid == f1.fnid && r[i].support[v];
            assert(q[i + 2] == r[i]);
        }
    }
    assert forall|id: usize| #[trigger] t.contains(id) <==> ((f0.fnid == id && f0.support[v]) || (f1.fnid == id && f1.support[v])
        || depends(r, id, v)) by {
        lemma_depends_split(q, id, v);
    }
    if t.len() == 0 || !f1.support[v] {
        if t.len() == 0 {
            assert(!t.contains(f0.fnid));
            assert(!t.contains(f1.fnid));
        }
        assert forall|id: usize| #[trigger] nt.contains(id) <==> (depends(r, id, v) || (id == f0.fnid && m)) by {
            assert(t.contains(id) <==> ((f0.fnid == id && f0.support[v]) || (f1.fnid == id && f1.support[v])
                || depends(r, id, v)));
            if t.len() == 0 {
                assert(!t.contains(id));
            }
        }
    } else if !f0.support[v] {
        assert(t.contains(f1.fnid));
        assert(!t.contains(f0.fnid));
        lemma_table_remove(t, f1.fnid);
        let rm = table_remove(t, f1.fnid);
        lemma_table_add(rm, f0.fnid);
        assert(!rm.contains(f0.fnid));
        assert forall|id: usize| #[trigger] nt.contains(id) <==> (depends(r, id, v) || (id == f0.fnid && m)) by {
            assert(rm.contains(id) <==> (t.contains(id) && id != f1.fnid));
        }
    } else if t.len() == 2 {
        assert(t.contains(f0.fnid) && t.contains(f1.fnid));
        let a = choose|a: int| 0 <= a < t.len() && t[a] == f0.fnid;
        let b = choose|b: int| 0 <= b < t.len() && t[b] == f1.fnid;
        assert(nt =~= Seq::<usize>::empty());
        assert forall|id: usize| #[trigger] nt.contains(id) <==> (depends(r, id, v) || (id == f0.fnid && m)) by {
            if depends(r, id, v) {
                assert(t.contains(id));
                let c = choose|c: int| 0 <= c < t.len() && t[c] == id;
                assert(c == a || c == b);
            }
        }
    } else {
        assert(t.contains(f0.fnid) && t.contains(f1.fnid));
        lemma_table_remove(t, f1.fnid);
        assert forall|id: usize| #[trigger] nt.contains(id) <==> (depends(r, id, v) || (id == f0.fnid && m)) by {
            assert(nt.contains(id) <==> (t.contains(id) && id != f1.fnid));
        }
    }
}


/// What the merges keep: distinct ids, supports over the variables, a table
/// that tracks them, and no variable with a single dependent function.
pub open spec fn merge_ok(st: MergeState, keep: Seq<bool>, n_vars: nat) -> bool {
    &&& distinct_ids(st.queue)
    &&& widths(st.queue, n_vars)
    &&& tracks(st.queue, st.table, keep, n_vars)
    &&& forall|v: int| 0 <= v < n_vars && !keep[v] ==> (#[trigger] st.table[v]).len() != 1
}

proof fn lemma_depends_sorted(q: Seq<FnRec>, id: usize, v: int)
    ensures
        depends(sort_queue(q), id, v) <==> depends(q, id, v),
{
    lemma_sort_contains(q);
    lemma_sort_elements(q);
    let s = sort_queue(q);
    if depends(s, id, v) {
        let j = choose|j: int| 0 <= j < s.len() && s[j].fnid == id && s[j].support[v];
        let i = choose|i: int| 0 <= i < q.len() && #[trigger] s[j] == q[i];
        assert(q[i].fnid == id && q[i].support[v]);
    }
    if depends(q, id, v) {
        let i = choose|i: int| 0 <= i < q.len() && q[i].fnid == id && q[i].support[v];
        let j = choose|j: int| 0 <= j < q.len() && #[trigger] s[j] == q[i];
        assert(s[j].fnid == id && s[j].support[v]);
    }
}

proof fn lemma_merge_keeps(st: MergeState, keep: Seq<bool>, n_vars: nat, n: nat)
    requires
        st.queue.len() >= 2,
        merge_ok(st, keep, n_vars),
        keep.len() == n_vars,
    ensures
        merge_ok(merge_step(st, n_vars, n), keep, n_vars),
        merge_step(st, n_vars, n).queue.len() == st.queue.len() - 1,
{
    let q = sort_queue(st.queue);
    lemma_sort_contains(st.queue);
    lemma_sort_elements(st.queue);
    lemma_sort_distinct(st.queue);
    assert(widths(q, n_vars)) by {
        assert forall|i: int| 0 <= i < q.len() implies (#[trigger] q[i]).support.len() == n_vars by {
            let w = choose|w: int| 0 <= w < st.queue.len() && #[trigger] q[i] == st.queue[w];
            assert(st.queue[w].support.len() == n_vars);
        }
    }
    let f0 = q[0];
    let f1 = q[1];
    lemma_smooth_frame(f0, f1, st.table, n_vars);
    let sm = smooth_run(f0, f1, st.table, n_vars);
    let nx = merge_step(st, n_vars, n);
    let rest = q.skip(2);
    let new0 = nx.queue.last();
    assert(nx.queue =~= rest.push(new0));
    assert(new0.fnid == f0.fnid && new0.support == sm.merged);
    assert(distinct_ids(nx.queue)) by {
        assert forall|a: int, b: int| 0 <= a < nx.queue.len() && 0 <= b < nx.queue.len() && a != b
            implies nx.queue[a].fnid != nx.queue[b].fnid by {
            if a < rest.len() {
                assert(nx.queue[a] == q[a + 2]);
            } else {
                assert(nx.queue[a] == new0);
            }
            if b < rest.len() {
                assert(nx.queue[b] == q[b + 2]);
            } else {
                assert(nx.queue[b] == new0);
            }
        }
    }
    assert(widths(nx.queue, n_vars)) by {
        assert forall|i: int| 0 <= i < nx.queue.len() implies (#[trigger] nx.queue[i]).support.len() == n_vars by {
            if i < rest.len() {
                assert(nx.queue[i] == q[i + 2]);
            }
        }
    }
    assert forall|v: int| 0 <= v < n_vars implies if keep[v] { (#[trigger] nx.table[v]).len() == 0 } else {
        entry_tracks(nx.queue, nx.table[v], v) } by {
        assert(nx.table[v] == step_table(f0, f1, st.table[v], v));
        assert(sm.merged[v] == step_merged(f0, f1, st.table[v], v));
        if !keep[v] {
            let t = st.table[v];
            assert(entry_tracks(st.queue, t, v));
            assert(t.len() != 1);
            assert(entry_tracks(q, t, v)) by {
                assert forall|id: usize| #[trigger] t.contains(id) <==> depends(q, id, v) by {
                    lemma_depends_sorted(st.queue, id, v);
                }
            }
            lemma_step_var(q, t, v);
            assert forall|id: usize| #[trigger] nx.table[v].contains(id) <==> depends(nx.queue, id, v) by {
                lemma_depends_push(rest, new0, id, v);
            }
        }
    }
    assert forall|v: int| 0 <= v < n_vars && !keep[v] implies (#[trigger] nx.table[v]).len() != 1 by {
        let t = st.table[v];
        assert(entry_tracks(q, t, v)) by {
            assert forall|id: usize| #[trigger] t.contains(id) <==> depends(q, id, v) by {
                lemma_depends_sorted(st.queue, id, v);
            }
        }
        lemma_step_var(q, t, v);
    }
}

proof fn lemma_merge_run_keeps(st0: MergeState, keep: Seq<bool>, n_vars: nat, n: nat, k: nat)
    requires
        merge_ok(st0, keep, n_vars),
        keep.len() == n_vars,
        st0.queue.len() >= k + 1,
    ensures
        merge_ok(merge_run(st0, n_vars, n, k), keep, n_vars),
        merge_run(st0, n_vars, n, k).queue.len() == st0.queue.len() - k,
    decreases k,
{
    if k > 0 {
        lemma_merge_run_keeps(st0, keep, n_vars, n, (k - 1) as nat);
        lemma_merge_keeps(merge_run(st0, n_vars, n, (k - 1) as nat), keep, n_vars, n);
    }
}

proof fn lemma_members(m: Seq<bool>, k: nat)
    requires
        k <= m.len(),
        k <= usize::MAX,
    ensures
        forall|x: usize| #[trigger] members_upto(m, k).contains(x) ==> x < k && m[x as int],
    decreases k,
{
    if k > 0 {
        lemma_members(m, (k - 1) as nat);
        let p = members_upto(m, (k - 1) as nat);
        assert forall|x: usize| #[trigger] members_upto(m, k).contains(x) implies x < k && m[x as int] by {
            if m[k - 1] {
                let r = p.push((k - 1) as usize);
                let i = choose|i: int| 0 <= i < r.len() && r[i] == x;
                if i < p.len() {
                    assert(p[i] == x);
                    assert(p.contains(x));
                }
            }
        }
    }
}

/// Every variable that is not kept is smoothed away: the support of the
/// planned product holds kept variables only (for functions with distinct
/// ids).
pub proof fn lemma_plan_smooths_unkept(supports: Seq<(usize, Seq<usize>)>, keep: Seq<usize>, n_vars: usize)
    requires
        plan_result(supports, keep, n_vars) is Ok,
        forall|i: int, j: int| 0 <= i < j < supports.len() ==> supports[i].0 != supports[j].0,
    ensures
        forall|v: usize| #[trigger] plan_of(supports, keep, n_vars).final_support.contains(v) ==> keep.contains(v),
{
    let n = supports.len();
    let km = mask_of_vars(keep, n_vars as nat);
    let fns0 = initial_fns(supports, n_vars as nat);
    assert(distinct_ids(fns0)) by {
        assert forall|a: int, b: int| 0 <= a < fns0.len() && 0 <= b < fns0.len() && a != b implies fns0[a].fnid != fns0[b].fnid by {
            if a < b {
                assert(supports[a].0 != supports[b].0);
            } else {
                assert(supports[b].0 != supports[a].0);
            }
        }
    }
    assert(widths(fns0, n_vars as nat));
    lemma_build_tracks(fns0, km, n_vars as nat, n);
    assert(fns0.take(n as int) =~= fns0);
    let bt = build_table(fns0, km, n_vars as nat, n);
    lemma_lonely_tracks(fns0, bt, km, n_vars as nat, n_vars as nat);
    let lone = initial_lonely(supports, keep, n_vars as nat);
    let st0 = initial_merge_state(supports, keep, n_vars as nat);
    assert(merge_ok(st0, km, n_vars as nat));
    lemma_merge_run_keeps(st0, km, n_vars as nat, n, (n - 1) as nat);
    let st = merge_run(st0, n_vars as nat, n, (n - 1) as nat);
    assert(st.queue.len() == 1);
    let x = st.queue[0];
    assert(st.queue.drop_last() =~= Seq::<FnRec>::empty());
    assert(sort_queue(st.queue.drop_last()) =~= Seq::<FnRec>::empty());
    assert(sort_queue(st.queue) == insert_key(Seq::<FnRec>::empty(), st.queue.last()));
    assert(st.queue.last() == x);
    let fin = sort_queue(st.queue)[0];
    assert(fin == x);
    assert(x.support.len() == n_vars);
    lemma_members(x.support, x.support.len());
    assert forall|v: usize| #[trigger] plan_of(supports, keep, n_vars).final_support.contains(v) implies keep.contains(v) by {
        assert(members(x.support).contains(v));
        assert(v < n_vars && x.support[v as int]);
        if !km[v as int] {
            let t = st.table[v as int];
            assert(entry_tracks(st.queue, t, v as int));
            assert(depends(st.queue, x.fnid, v as int));
            assert(t.contains(x.fnid));
            assert(t.len() != 1);
            assert(t.len() >= 2);
            assert(t.contains(t[0]) && t.contains(t[1]));
            assert(t[0] != t[1]);
            assert(depends(st.queue, t[0], v as int));
            assert(depends(st.queue, t[1], v as int));
            let i0 = choose|i: int| 0 <= i < st.queue.len() && st.queue[i].fnid == t[0] && st.queue[i].support[v as int];
            let i1 = choose|i: int| 0 <= i < st.queue.len() && st.queue[i].fnid == t[1] && st.queue[i].support[v as int];
            assert(i0 == 0 && i1 == 0);
        }
    }
}


proof fn lemma_merge_run_count(st0: MergeState, n_vars: nat, n: nat, k: nat)
    ensures
        merge_run(st0, n_vars, n, k).merges.len() == st0.merges.len() + k,
    decreases k,
{
    if k > 0 {
        lemma_merge_run_count(st0, n_vars, n, (k - 1) as nat);
    }
}

/// The functions are merged two at a time into one: a plan of `n` functions
/// has `n - 1` merge steps.
pub proof fn lemma_plan_merge_count(supports: Seq<(usize, Seq<usize>)>, keep: Seq<usize>, n_vars: usize)
    requires
        plan_result(supports, keep, n_vars) is Ok,
    ensures
        plan_of(supports, keep, n_vars).merges.len() == supports.len() - 1,
{
    let n = supports.len();
    lemma_merge_run_count(initial_merge_state(supports, keep, n_vars as nat), n_vars as nat, n, (n - 1) as nat);
}

} // verus!
