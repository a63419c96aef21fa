//! Ordering sets of variables so that the running size of their union,
//! summed over the order, is small: by branch and bound over dominating
//! sets, or greedily.

use vstd::prelude::*;
use std::collections::BTreeSet;
use crate::text::{push_str, push_decimal, decimal};
use crate::var_set::{count_members, lemma_count_bound};
use crate::bull_util::{smallest_outside, insert_index};

verus! {

/// The cost that stands for "no ordering found".
pub const LARGE_NUMBER: i32 = 0x1fff_ffff;

#[derive(Clone, Copy, Debug, Eq, PartialEq)]
pub struct OrderingOptions {
    pub ordering_depth: i32,
    pub verbose: i32,
}

impl Default for OrderingOptions {
    fn default() -> (r: Self)
        ensures
            r.ordering_depth == 2,
            r.verbose == 0,
    {
        OrderingOptions { ordering_depth: 2, verbose: 0 }
    }
}

#[derive(Clone, Debug, Eq, PartialEq)]
pub enum OrderingError {
    MissingNativeSupport { operation: &'static str },
    EmptySetCollection,
    SetVariableOutOfRange { set_index: usize, variable: usize, n_vars: usize },
    InvalidOrderingIndex { index: usize, n_sets: usize },
    DuplicateOrderingIndex(usize),
    IncompleteOrdering { expected: usize, actual: usize },
}

/// The message of an error.
pub open spec fn error_text(e: OrderingError) -> Seq<char> {
    match e {
        OrderingError::MissingNativeSupport { operation } => operation@ + " is blocked by missing native network support"@,
        OrderingError::EmptySetCollection => "set ordering requires at least one set"@,
        OrderingError::SetVariableOutOfRange { set_index, variable, n_vars } => "set "@ + decimal(set_index as nat)
            + " contains variable "@ + decimal(variable as nat) + " outside range 0.."@ + decimal(n_vars as nat),
        OrderingError::InvalidOrderingIndex { index, n_sets } => "ordering index "@ + decimal(index as nat)
            + " is outside range 0.."@ + decimal(n_sets as nat),
        OrderingError::DuplicateOrderingIndex(index) => "ordering contains duplicate set index "@ + decimal(index as nat),
        OrderingError::IncompleteOrdering { expected, actual } => "ordering contains "@ + decimal(actual as nat)
            + " sets, expected "@ + decimal(expected as nat),
    }
}

impl OrderingError {
    /// The message describing the error.
    pub fn message(&self) -> (r: String)
        ensures
            r@ == error_text(*self),
    {
        let mut s = String::new();
        match self {
            OrderingError::MissingNativeSupport { operation } => {
                push_str(&mut s, operation);
                push_str(&mut s, " is blocked by missing native network support");
            },
            OrderingError::EmptySetCollection => {
                push_str(&mut s, "set ordering requires at least one set");
            },
            OrderingError::SetVariableOutOfRange { set_index, variable, n_vars } => {
                push_str(&mut s, "set ");
                push_decimal(&mut s, *set_index as u64);
                push_str(&mut s, " contains variable ");
                push_decimal(&mut s, *variable as u64);
                push_str(&mut s, " outside range 0..");
                push_decimal(&mut s, *n_vars as u64);
            },
            OrderingError::InvalidOrderingIndex { index, n_sets } => {
                push_str(&mut s, "ordering index ");
                push_decimal(&mut s, *index as u64);
                push_str(&mut s, " is outside range 0..");
                push_decimal(&mut s, *n_sets as u64);
            },
            OrderingError::DuplicateOrderingIndex(index) => {
                push_str(&mut s, "ordering contains duplicate set index ");
                push_decimal(&mut s, *index as u64);
            },
            OrderingError::IncompleteOrdering { expected, actual } => {
                push_str(&mut s, "ordering contains ");
                push_decimal(&mut s, *actual as u64);
                push_str(&mut s, " sets, expected ");
                push_decimal(&mut s, *expected as u64);
            },
        }
        assert(s@ =~= error_text(*self));
        s
    }
}

/// The first of the first `k` sets that holds a variable of `n_vars` or
/// more, with the smallest such variable.
pub open spec fn first_bad_set(sets: Seq<Seq<usize>>, n_vars: usize, k: nat) -> Option<(int, usize)>
    decreases k,
{
    if k == 0 {
        None
    } else {
        match first_bad_set(sets, n_vars, (k - 1) as nat) {
            Some(b) => Some(b),
            None => match smallest_outside(sets[k - 1], n_vars) {
                Some(v) => Some((k - 1, v)),
                None => None,
            },
        }
    }
}

/// Membership of each of `n` variables in the listed ones.
pub open spec fn mask_of(vars: Seq<usize>, n: nat) -> Seq<bool> {
    Seq::new(n, |x: int| exists|i: int| 0 <= i < vars.len() && vars[i] == x)
}

/// The sets to order, each a membership mask over the variables.
#[derive(Debug, Eq, PartialEq)]
pub struct SetInfo {
    n_vars: usize,
    sets: Vec<Vec<bool>>,
}

impl SetInfo {
    #[verifier::type_invariant]
    closed spec fn inv(self) -> bool {
        &&& self.sets@.len() > 0
        &&& self.n_vars < usize::MAX
        &&& forall|i: int| 0 <= i < self.sets@.len() ==> (#[trigger] self.sets@[i])@.len() == self.n_vars
    }

    pub closed spec fn vars_count(&self) -> nat {
        self.n_vars as nat
    }

    /// The membership masks of the sets.
    pub closed spec fn masks(&self) -> Seq<Seq<bool>> {
        Seq::new(self.sets@.len(), |i: int| self.sets@[i]@)
    }

    /// The sets over `n_vars` variables; fails on the first set holding a
    /// variable out of range, or when there is no set.
    pub fn new(n_vars: usize, sets: &[Vec<usize>]) -> (r: Result<Self, OrderingError>)
        requires
            n_vars < usize::MAX,
        ensures
            match first_bad_set(Seq::new(sets@.len(), |i: int| sets@[i]@), n_vars, sets@.len()) {
                Some((i, v)) => r == Err::<SetInfo, OrderingError>(
                    OrderingError::SetVariableOutOfRange { set_index: i as usize, variable: v, n_vars },
                ),
                None => if sets@.len() == 0 {
                    r == Err::<SetInfo, OrderingError>(OrderingError::EmptySetCollection)
                } else {
                    r matches Ok(info) && info.vars_count() == n_vars && info.masks().len() == sets@.len()
                        && forall|i: int| 0 <= i < sets@.len() ==> #[trigger] info.masks()[i] == mask_of(sets@[i]@, n_vars as nat)
                },
            },
    {
        let ghost lists = Seq::new(sets@.len(), |i: int| sets@[i]@);
        let mut masks: Vec<Vec<bool>> = Vec::new();
        for i in 0..sets.len()
            invariant
                lists == Seq::new(sets@.len(), |i: int| sets@[i]@),
                first_bad_set(lists, n_vars, i as nat) is None,
                masks@.len() == i,
                forall|k: int| 0 <= k < i ==> (#[trigger] masks@[k])@ == mask_of(sets@[k]@, n_vars as nat),
        {
            let set = &sets[i];
            let mut worst: Option<usize> = None;
            for j in 0..set.len()
                invariant
                    worst == smallest_outside(set@.take(j as int), n_vars),
                    worst is None ==> forall|k: int| 0 <= k < j ==> set@[k] < n_vars,
            {
                let v = set[j];
                assert(set@.take(j + 1).drop_last() =~= set@.take(j as int));
                if v >= n_vars {
                    match worst {
                        Some(w) => {
                            if v < w {
                                worst = Some(v);
                            }
                        },
                        None => {
                            worst = Some(v);
                        },
                    }
                }
            }
            assert(set@.take(set@.len() as int) =~= set@);
            assert(lists[i as int] == set@);
            if let Some(v) = worst {
                proof {
                    lemma_first_bad_stays(lists, n_vars, (i + 1) as nat, lists.len());
                }
                return Err(OrderingError::SetVariableOutOfRange { set_index: i, variable: v, n_vars });
            }
            let mut mask: Vec<bool> = Vec::new();
            for x in 0..n_vars
                invariant
                    mask@.len() == x,
                    forall|k: int| 0 <= k < x ==> !mask@[k],
            {
                mask.push(false);
            }
            for j in 0..set.len()
                invariant
                    mask@.len() == n_vars,
                    forall|k: int| 0 <= k < set@.len() ==> set@[k] < n_vars,
                    forall|x: int| 0 <= x < n_vars ==> (#[trigger] mask@[x] <==> exists|k: int| 0 <= k < j && set@[k] == x),
            {
                let v = set[j];
                mask.set(v, true);
                assert forall|x: int| 0 <= x < n_vars implies (#[trigger] mask@[x] <==> exists|k: int| 0 <= k < j + 1 && set@[k] == x) by {
                    if x == v {
                        assert(set@[j as int] == x);
                    }
                }
            }
            assert(mask@ =~= mask_of(set@, n_vars as nat));
            masks.push(mask);
        }
        if masks.len() == 0 {
            return Err(OrderingError::EmptySetCollection);
        }
        let info = SetInfo { n_vars, sets: masks };
        assert(info.masks().len() == sets@.len());
        Ok(info)
    }

    pub fn n_vars(&self) -> (r: usize)
        ensures
            r == self.vars_count(),
    {
        self.n_vars
    }

    pub fn n_sets(&self) -> (r: usize)
        ensures
            r == self.masks().len(),
    {
        self.sets.len()
    }

    /// The variables of each set.
    pub fn sets(&self) -> (r: Vec<BTreeSet<usize>>)
        ensures
            r@.len() == self.masks().len(),
            forall|i: int, v: usize| 0 <= i < r@.len() ==> ((#[trigger] r@[i]@.contains(v)) <==> (v < self.masks()[i].len() && self.masks()[i][v as int])),
    {
        let mut out: Vec<BTreeSet<usize>> = Vec::new();
        for i in 0..self.sets.len()
            invariant
                out@.len() == i,
                forall|k: int, v: usize| 0 <= k < i ==> ((#[trigger] out@[k]@.contains(v)) <==> (v < self.masks()[k].len() && self.masks()[k][v as int])),
        {
            let mask = &self.sets[i];
            let mut set: BTreeSet<usize> = BTreeSet::new();
            for v in 0..mask.len()
                invariant
                    forall|x: usize| (#[trigger] set@.contains(x)) <==> (x < v && mask@[x as int]),
            {
                if mask[v] {
                    insert_index(&mut set, v);
                }
            }
            out.push(set);
        }
        out
    }
}

proof fn lemma_first_bad_stays(sets: Seq<Seq<usize>>, n_vars: usize, k: nat, m: nat)
    requires
        k <= m <= sets.len(),
        first_bad_set(sets, n_vars, k) is Some,
    ensures
        first_bad_set(sets, n_vars, m) == first_bad_set(sets, n_vars, k),
    decreases m - k,
{
    if k < m {
        lemma_first_bad_stays(sets, n_vars, k, (m - 1) as nat);
    }
}


/// The variables in `a` or in `b`, over `a`'s width.
pub open spec fn union_mask(a: Seq<bool>, b: Seq<bool>) -> Seq<bool> {
    Seq::new(a.len(), |v: int| a[v] || (v < b.len() && b[v]))
}

/// The variables in both.
pub open spec fn meet_mask(a: Seq<bool>, b: Seq<bool>) -> Seq<bool> {
    Seq::new(a.len(), |v: int| a[v] && v < b.len() && b[v])
}

pub open spec fn empty_mask(n: nat) -> Seq<bool> {
    Seq::new(n, |v: int| false)
}

/// The union of the first `k` sets of the order.
pub open spec fn order_union(sets: Seq<Seq<bool>>, order: Seq<usize>, n_vars: nat, k: nat) -> Seq<bool>
    decreases k,
{
    if k == 0 {
        empty_mask(n_vars)
    } else {
        union_mask(order_union(sets, order, n_vars, (k - 1) as nat), sets[order[k - 1] as int])
    }
}

/// The cost of the first `k` steps of the order: the size of the union so
/// far, summed over the steps.
pub open spec fn order_cost(sets: Seq<Seq<bool>>, order: Seq<usize>, n_vars: nat, k: nat) -> int
    decreases k,
{
    if k == 0 {
        0
    } else {
        order_cost(sets, order, n_vars, (k - 1) as nat) + count_members(order_union(sets, order, n_vars, k))
    }
}

/// The first fault of the first `k` entries of an order of `n` sets: an
/// index out of range, or one seen before.
pub open spec fn order_problem(order: Seq<usize>, n: nat, k: nat) -> Option<OrderingError>
    decreases k,
{
    if k == 0 {
        None
    } else {
        match order_problem(order, n, (k - 1) as nat) {
            Some(e) => Some(e),
            None => if order[k - 1] >= n {
                Some(OrderingError::InvalidOrderingIndex { index: order[k - 1], n_sets: n as usize })
            } else if order.take(k - 1).contains(order[k - 1]) {
                Some(OrderingError::DuplicateOrderingIndex(order[k - 1]))
            } else {
                None
            },
        }
    }
}

/// Whether `order` lists each of the `n` sets exactly once.
pub open spec fn is_permutation(order: Seq<usize>, n: nat) -> bool {
    order.len() == n && order_problem(order, n, n) is None
}

/// Every cost of an order (at most a full union at each step) fits in `i32`.
pub open spec fn costs_fit(info: &SetInfo) -> bool {
    info.vars_count() * info.masks().len() <= i32::MAX
}

/// The sizes the search computes with (costs, bounds and its allowance)
/// stay below its cut-off cost.
pub open spec fn small_enough(info: &SetInfo) -> bool {
    &&& info.vars_count() * (info.masks().len() + 1) <= 0x4000_0000
    &&& info.masks().len() <= 0x4000_0000
}

/// Number of members of a mask.
fn count_mask(m: &Vec<bool>) -> (r: usize)
    ensures
        r == count_members(m@),
{
    let mut c: usize = 0;
    for v in 0..m.len()
        invariant
            c == count_members(m@.take(v as int)),
            c <= v,
    {
        assert(m@.take(v + 1).drop_last() =~= m@.take(v as int));
        if m[v] {
            c = c + 1;
        }
    }
    assert(m@.take(m@.len() as int) =~= m@);
    c
}

/// `a` with the members of `b` added.
fn add_mask(a: &mut Vec<bool>, b: &Vec<bool>)
    ensures
        final(a)@ == union_mask(old(a)@, b@),
{
    let n = a.len();
    for v in 0..n
        invariant
            n == old(a)@.len(),
            a@.len() == old(a)@.len(),
            forall|x: int| 0 <= x < v ==> a@[x] == union_mask(old(a)@, b@)[x],
            forall|x: int| v <= x < a@.len() ==> a@[x] == old(a)@[x],
    {
        if v < b.len() && b[v] {
            a.set(v, true);
        }
    }
    assert(a@ =~= union_mask(old(a)@, b@));
}

fn falses(n: usize) -> (r: Vec<bool>)
    ensures
        r@ == empty_mask(n as nat),
{
    let mut m: Vec<bool> = Vec::new();
    for x in 0..n
        invariant
            m@ == empty_mask(x as nat),
    {
        m.push(false);
        assert(m@ =~= empty_mask((x + 1) as nat));
    }
    m
}

proof fn lemma_union_len(sets: Seq<Seq<bool>>, order: Seq<usize>, n_vars: nat, k: nat)
    ensures
        order_union(sets, order, n_vars, k).len() == n_vars,
    decreases k,
{
    if k > 0 {
        lemma_union_len(sets, order, n_vars, (k - 1) as nat);
    }
}

proof fn lemma_problem_stays(order: Seq<usize>, n: nat, k: nat, m: nat)
    requires
        k <= m <= order.len(),
        order_problem(order, n, k) is Some,
    ensures
        order_problem(order, n, m) == order_problem(order, n, k),
    decreases m - k,
{
    if k < m {
        lemma_problem_stays(order, n, k, (m - 1) as nat);
    }
}

/// The cost of an order of all the sets; fails when the order misses a set
/// or holds a bad index.
pub fn compute_order_cost(info: &SetInfo, order: &[usize]) -> (r: Result<i32, OrderingError>)
    requires
        costs_fit(info),
    ensures
        order@.len() != info.masks().len() ==> r == Err::<i32, OrderingError>(
            OrderingError::IncompleteOrdering { expected: info.masks().len() as usize, actual: order@.len() as usize },
        ),
        order@.len() == info.masks().len() ==> match order_problem(order@, order@.len(), order@.len()) {
            Some(e) => r == Err::<i32, OrderingError>(e),
            None => r == Ok::<i32, OrderingError>(order_cost(info.masks(), order@, info.vars_count(), order@.len()) as i32)
                && 0 <= order_cost(info.masks(), order@, info.vars_count(), order@.len()) <= i32::MAX,
        },
{
    proof {
        use_type_invariant(info);
    }
    let n = info.sets.len();
    if order.len() != n {
        return Err(OrderingError::IncompleteOrdering { expected: n, actual: order.len() });
    }
    let ghost sets = info.masks();
    let nv = info.n_vars;
    let mut seen = falses(n);
    let mut union = falses(nv);
    let mut result: i32 = 0;
    for k in 0..order.len()
        invariant
            n == order@.len(),
            n == info.sets@.len(),
            sets == info.masks(),
            nv == info.n_vars,
            nv * n <= i32::MAX,
            forall|i: int| 0 <= i < info.sets@.len() ==> (#[trigger] info.sets@[i])@.len() == info.n_vars,
            order_problem(order@, n as nat, k as nat) is None,
            seen@.len() == n,
            forall|i: int| 0 <= i < n ==> (#[trigger] seen@[i] <==> order@.take(k as int).contains(i as usize)),
            union@ == order_union(sets, order@, nv as nat, k as nat),
            result as int == order_cost(sets, order@, nv as nat, k as nat),
            0 <= result <= k * nv,
    {
        let index = order[k];
        if index >= n {
            proof {
                assert(order_problem(order@, n as nat, (k + 1) as nat) is Some);
                lemma_problem_stays(order@, n as nat, (k + 1) as nat, n as nat);
            }
            return Err(OrderingError::InvalidOrderingIndex { index, n_sets: n });
        }
        assert(order@.take(k + 1) =~= order@.take(k as int).push(index));
        if seen[index] {
            proof {
                assert(order_problem(order@, n as nat, (k + 1) as nat) is Some);
                lemma_problem_stays(order@, n as nat, (k + 1) as nat, n as nat);
            }
            return Err(OrderingError::DuplicateOrderingIndex(index));
        }
        let ghost seen0 = seen@;
        seen.set(index, true);
        add_mask(&mut union, &info.sets[index]);
        assert(sets[index as int] == info.sets@[index as int]@);
        let c = count_mask(&union);
        proof {
            lemma_union_len(sets, order@, nv as nat, (k + 1) as nat);
            lemma_count_bound(union@);
            assert((k + 1) * nv <= n * nv) by (nonlinear_arith)
                requires
                    k + 1 <= n,
            ;
            assert((k + 1) * nv == k * nv + nv) by (nonlinear_arith);
            assert(nv <= nv * n) by (nonlinear_arith)
                requires
                    n >= 1,
            ;
        }
        result = result + c as i32;
        proof {
            let s0 = order@.take(k as int);
            assert forall|i: int| 0 <= i < n implies (#[trigger] seen@[i] <==> s0.push(index).contains(i as usize)) by {
                if i as usize == index {
                    assert(s0.push(index)[s0.len() as int] == index);
                } else {
                    assert(seen@[i] == seen0[i]);
                    if s0.push(index).contains(i as usize) {
                        let j = choose|j: int| 0 <= j < s0.len() + 1 && #[trigger] s0.push(index)[j] == i as usize;
                        assert(j < s0.len());
                        assert(s0[j] == i as usize);
                    }
                    if s0.contains(i as usize) {
                        let j = choose|j: int| 0 <= j < s0.len() && #[trigger] s0[j] == i as usize;
                        assert(s0.push(index)[j] == i as usize);
                    }
                }
            }
        }
    }
    assert(order@.take(n as int) =~= order@);
    Ok(result)
}


/// Over the first `k` sets: the first unplaced set whose union with `mask`
/// is smallest, and that size (`usize::MAX` for both when there is none).
pub open spec fn arg_min_run(sets: Seq<Seq<bool>>, placed: Seq<bool>, mask: Seq<bool>, k: nat) -> (int, int)
    decreases k,
{
    if k == 0 {
        (usize::MAX as int, usize::MAX as int)
    } else {
        let (bi, bs) = arg_min_run(sets, placed, mask, (k - 1) as nat);
        if placed[k - 1] {
            (bi, bs)
        } else {
            let size = count_members(union_mask(mask, sets[k - 1]));
            if size < bs { (k - 1, size as int) } else { (bi, bs) }
        }
    }
}

/// The greedy order so far, the sets placed, and their union.
pub struct GreedyState {
    pub order: Seq<usize>,
    pub placed: Seq<bool>,
    pub mask: Seq<bool>,
}

/// The first `k` greedy steps: each places the set that adds least to the
/// union.
pub open spec fn greedy_run(sets: Seq<Seq<bool>>, n_vars: nat, k: nat) -> GreedyState
    decreases k,
{
    if k == 0 {
        GreedyState { order: seq![], placed: empty_mask(sets.len()), mask: empty_mask(n_vars) }
    } else {
        let g = greedy_run(sets, n_vars, (k - 1) as nat);
        let b = arg_min_run(sets, g.placed, g.mask, sets.len()).0;
        GreedyState { order: g.order.push(b as usize), placed: g.placed.update(b, true), mask: union_mask(g.mask, sets[b]) }
    }
}

proof fn lemma_count_set(s: Seq<bool>, b: int)
    requires
        0 <= b < s.len(),
        !s[b],
    ensures
        count_members(s.update(b, true)) == count_members(s) + 1,
    decreases s.len(),
{
    let t = s.update(b, true);
    if b == s.len() - 1 {
        assert(t.drop_last() =~= s.drop_last());
    } else {
        assert(t.drop_last() =~= s.drop_last().update(b, true));
        lemma_count_set(s.drop_last(), b);
    }
}

proof fn lemma_arg_min(sets: Seq<Seq<bool>>, placed: Seq<bool>, mask: Seq<bool>, k: nat)
    requires
        k <= placed.len(),
        k <= sets.len(),
        mask.len() < usize::MAX,
    ensures
        (exists|j: int| 0 <= j < k && !placed[j]) ==> {
            let bi = arg_min_run(sets, placed, mask, k).0;
            let bs = arg_min_run(sets, placed, mask, k).1;
            &&& 0 <= bi < k
            &&& !placed[bi]
            &&& bs <= mask.len()
            &&& bs == count_members(union_mask(mask, sets[bi]))
        },
        !(exists|j: int| 0 <= j < k && !placed[j]) ==> arg_min_run(sets, placed, mask, k) == (usize::MAX as int, usize::MAX as int),
    decreases k,
{
    if k > 0 {
        lemma_arg_min(sets, placed, mask, (k - 1) as nat);
        lemma_count_bound(union_mask(mask, sets[k - 1]));
        if exists|j: int| 0 <= j < k - 1 && !placed[j] {
            assert(exists|j: int| 0 <= j < k && !placed[j]);
        } else if !placed[k - 1] {
            assert(exists|j: int| 0 <= j < k && !placed[j]);
        } else {
            assert forall|j: int| 0 <= j < k implies placed[j] by {}
        }
    }
}

/// The first unplaced set whose union with `mask` is smallest, and how many
/// variables it adds to `mask`.
fn arg_min_remaining_size(info: &SetInfo, placed: &Vec<bool>, mask: &Vec<bool>) -> (r: (usize, usize))
    requires
        placed@.len() == info.masks().len(),
        mask@.len() == info.vars_count(),
    ensures
        r.0 as int == arg_min_run(info.masks(), placed@, mask@, placed@.len()).0,
        r.1 as int == arg_min_run(info.masks(), placed@, mask@, placed@.len()).1 - count_members(mask@),
{
    proof {
        use_type_invariant(info);
        lemma_arg_min(info.masks(), placed@, mask@, placed@.len());
        lemma_count_bound(mask@);
    }
    let mut best_index: usize = usize::MAX;
    let mut best_size: usize = usize::MAX;
    for index in 0..info.sets.len()
        invariant
            placed@.len() == info.sets@.len(),
            (best_index as int, best_size as int) == arg_min_run(info.masks(), placed@, mask@, index as nat),
    {
        if !placed[index] {
            let mut u = copy_mask(mask);
            add_mask(&mut u, &info.sets[index]);
            assert(info.masks()[index as int] == info.sets@[index as int]@);
            let size = count_mask(&u);
            if size < best_size {
                best_size = size;
                best_index = index;
            }
        }
    }
    let mc = count_mask(mask);
    proof {
        let (bi, bs) = arg_min_run(info.masks(), placed@, mask@, placed@.len());
        if exists|j: int| 0 <= j < placed@.len() && !placed@[j] {
            lemma_count_bound(union_mask(mask@, info.masks()[bi]));
            assert(count_members(union_mask(mask@, info.masks()[bi])) >= count_members(mask@)) by {
                lemma_union_count(mask@, info.masks()[bi]);
            }
        }
    }
    (best_index, best_size - mc)
}

proof fn lemma_union_count(a: Seq<bool>, b: Seq<bool>)
    ensures
        count_members(union_mask(a, b)) >= count_members(a),
    decreases a.len(),
{
    if a.len() > 0 {
        lemma_union_count(a.drop_last(), b);
        assert(union_mask(a, b).drop_last() =~= union_mask(a.drop_last(), b));
    }
}

fn copy_mask(m: &Vec<bool>) -> (r: Vec<bool>)
    ensures
        r@ == m@,
{
    let mut out: Vec<bool> = Vec::new();
    for v in 0..m.len()
        invariant
            out@ == m@.take(v as int),
    {
        out.push(m[v]);
        assert(m@.take(v + 1) =~= m@.take(v as int).push(m@[v as int]));
    }
    assert(m@.take(m@.len() as int) =~= m@);
    out
}

/// The greedy facts: the order so far lists distinct sets, which are the
/// ones placed, and the mask is the union of their sets.
proof fn lemma_greedy(sets: Seq<Seq<bool>>, n_vars: nat, k: nat)
    requires
        k <= sets.len(),
        n_vars < usize::MAX,
        sets.len() <= usize::MAX,
        forall|i: int| 0 <= i < sets.len() ==> (#[trigger] sets[i]).len() == n_vars,
    ensures
        ({
            let g = greedy_run(sets, n_vars, k);
            &&& g.order.len() == k
            &&& g.placed.len() == sets.len()
            &&& g.mask.len() == n_vars
            &&& count_members(g.placed) == k
            &&& forall|i: usize| (i as int) < sets.len() ==> (#[trigger] g.placed[i as int] <==> g.order.contains(i))
            &&& order_problem(g.order, sets.len(), k) is None
            &&& g.mask == order_union(sets, g.order, n_vars, k)
        }),
    decreases k,
{
    if k == 0 {
        let g = greedy_run(sets, n_vars, 0);
        assert(count_members(g.placed) == 0) by {
            lemma_count_zero(g.placed);
        }
    } else {
        lemma_greedy(sets, n_vars, (k - 1) as nat);
        let g = greedy_run(sets, n_vars, (k - 1) as nat);
        lemma_count_bound(g.placed);
        assert(exists|j: int| 0 <= j < g.placed.len() && !g.placed[j]);
        lemma_arg_min(sets, g.placed, g.mask, sets.len());
        let b = arg_min_run(sets, g.placed, g.mask, sets.len()).0;
        assert(0 <= b < sets.len() && !g.placed[b]);
        lemma_count_set(g.placed, b);
        let g2 = greedy_run(sets, n_vars, k);
        assert(g2.order == g.order.push(b as usize));
        assert(g2.placed == g.placed.update(b, true));
        assert(g2.order.take(k - 1) =~= g.order);
        assert((b as usize) as int == b);
        assert(g.placed[(b as usize) as int] <==> g.order.contains(b as usize));
        assert(!g.order.contains(b as usize));
        assert forall|i: usize| (i as int) < sets.len() implies (#[trigger] g2.placed[i as int] <==> g2.order.contains(i)) by {
            if i as int == b {
                assert(g2.order[k - 1] == i);
            } else {
                assert(g2.placed[i as int] == g.placed[i as int]);
                if g2.order.contains(i) {
                    let m = choose|m: int| 0 <= m < g2.order.len() && #[trigger] g2.order[m] == i;
                    assert(m < k - 1);
                    assert(g.order[m] == i);
                }
                if g.order.contains(i) {
                    let m = choose|m: int| 0 <= m < g.order.len() && #[trigger] g.order[m] == i;
                    assert(g2.order[m] == i);
                }
            }
        }
        lemma_problem_prefix(g2.order, sets.len(), (k - 1) as nat);
        lemma_union_prefix(sets, g2.order, g.order, n_vars, (k - 1) as nat);
    }
}

proof fn lemma_count_zero(s: Seq<bool>)
    requires
        forall|i: int| 0 <= i < s.len() ==> !s[i],
    ensures
        count_members(s) == 0,
    decreases s.len(),
{
    if s.len() > 0 {
        lemma_count_zero(s.drop_last());
    }
}

/// A fault check of a prefix reads only the prefix.
proof fn lemma_problem_prefix(order: Seq<usize>, n: nat, k: nat)
    requires
        k < order.len(),
    ensures
        order_problem(order, n, k) == order_problem(order.take(order.len() - 1), n, k),
    decreases k,
{
    if k > 0 {
        lemma_problem_prefix(order, n, (k - 1) as nat);
        assert(order.take(k - 1) =~= order.take(order.len() - 1).take(k - 1));
    }
}

proof fn lemma_union_prefix(sets: Seq<Seq<bool>>, a: Seq<usize>, b: Seq<usize>, n_vars: nat, k: nat)
    requires
        k <= a.len(),
        k <= b.len(),
        forall|i: int| 0 <= i < k ==> a[i] == b[i],
    ensures
        order_union(sets, a, n_vars, k) == order_union(sets, b, n_vars, k),
    decreases k,
{
    if k > 0 {
        lemma_union_prefix(sets, a, b, n_vars, (k - 1) as nat);
    }
}

/// The greedy order: repeatedly the set that adds least to the union of
/// those placed, the first one on ties.
pub fn find_greedy_set_order(info: &SetInfo) -> (r: Vec<usize>)
    ensures
        r@ == greedy_run(info.masks(), info.vars_count(), info.masks().len()).order,
        is_permutation(r@, info.masks().len()),
{
    proof {
        use_type_invariant(info);
    }
    let n = info.sets.len();
    let ghost sets = info.masks();
    let mut result: Vec<usize> = Vec::new();
    let mut placed = falses(n);
    let mut mask = falses(info.n_vars);
    for k in 0..n
        invariant
            n == info.sets@.len(),
            sets == info.masks(),
            info.n_vars < usize::MAX,
            forall|i: int| 0 <= i < info.sets@.len() ==> (#[trigger] info.sets@[i])@.len() == info.n_vars,
            result@ == greedy_run(sets, info.n_vars as nat, k as nat).order,
            placed@ == greedy_run(sets, info.n_vars as nat, k as nat).placed,
            mask@ == greedy_run(sets, info.n_vars as nat, k as nat).mask,
    {
        proof {
            assert forall|i: int| 0 <= i < sets.len() implies (#[trigger] sets[i]).len() == info.n_vars by {
                assert(sets[i] == info.sets@[i]@);
            }
            lemma_greedy(sets, info.n_vars as nat, k as nat);
            let g = greedy_run(sets, info.n_vars as nat, k as nat);
            lemma_count_bound(g.placed);
            let j = choose|j: int| 0 <= j < g.placed.len() && !g.placed[j];
            lemma_arg_min(sets, g.placed, g.mask, sets.len());
        }
        let (best, _) = arg_min_remaining_size(info, &placed, &mask);
        result.push(best);
        placed.set(best, true);
        add_mask(&mut mask, &info.sets[best]);
        assert(sets[best as int] == info.sets@[best as int]@);
    }
    proof {
        assert forall|i: int| 0 <= i < sets.len() implies (#[trigger] sets[i]).len() == info.n_vars by {
            assert(sets[i] == info.sets@[i]@);
        }
        lemma_greedy(sets, info.n_vars as nat, n as nat);
    }
    result
}


/// A candidate for the next set of the order, with a lower bound on the
/// cost of placing it next and the cost found for it.
#[derive(Clone, Copy, Debug, Eq, PartialEq)]
pub struct Dominator {
    pub index: usize,
    pub bound: i32,
    pub cost: i32,
    pub size: usize,
}

/// Whether `s1` comes before `s2` within `mask`: its part is a proper
/// subset, or the parts are equal and `diff` (its index less the other's)
/// is negative.
pub open spec fn set_less(s1: Seq<bool>, s2: Seq<bool>, mask: Seq<bool>, diff: int) -> bool {
    let m1 = meet_mask(s1, mask);
    let m2 = meet_mask(s2, mask);
    if m1 == m2 {
        diff < 0
    } else {
        forall|v: int| 0 <= v < m1.len() && m1[v] ==> v < m2.len() && m2[v]
    }
}

/// Set `i` is unplaced and no other unplaced set comes before it.
pub open spec fn is_dominator(sets: Seq<Seq<bool>>, placed: Seq<bool>, mask: Seq<bool>, i: int) -> bool {
    &&& !placed[i]
    &&& forall|j: int| 0 <= j < sets.len() && j != i && !placed[j] ==> !#[trigger] set_less(sets[j], sets[i], mask, j - i)
}

/// The dominators among the first `k` sets, in index order.
pub open spec fn dominator_list(sets: Seq<Seq<bool>>, placed: Seq<bool>, mask: Seq<bool>, k: nat) -> Seq<Dominator>
    decreases k,
{
    if k == 0 {
        seq![]
    } else {
        let p = dominator_list(sets, placed, mask, (k - 1) as nat);
        if is_dominator(sets, placed, mask, k - 1) {
            p.push(Dominator {
                index: (k - 1) as usize,
                size: count_members(meet_mask(mask, sets[k - 1])) as usize,
                cost: LARGE_NUMBER,
                bound: 0,
            })
        } else {
            p
        }
    }
}

fn meet_vec(a: &Vec<bool>, b: &[bool]) -> (r: Vec<bool>)
    ensures
        r@ == meet_mask(a@, b@),
{
    let mut out: Vec<bool> = Vec::new();
    for v in 0..a.len()
        invariant
            out@ == meet_mask(a@, b@).take(v as int),
    {
        let x = a[v] && v < b.len() && b[v];
        out.push(x);
        assert(meet_mask(a@, b@).take(v + 1) =~= meet_mask(a@, b@).take(v as int).push(x));
    }
    assert(meet_mask(a@, b@).take(a@.len() as int) =~= meet_mask(a@, b@));
    out
}

/// Whether `set1` comes before `set2` within `mask` (see [`set_less`]).
pub fn set_is_less_than(set1: &Vec<bool>, set2: &Vec<bool>, mask: &[bool], diff: isize) -> (r: bool)
    ensures
        r == set_less(set1@, set2@, mask@, diff as int),
{
    let m1 = meet_vec(set1, mask);
    let m2 = meet_vec(set2, mask);
    let mut equal = m1.len() == m2.len();
    let mut subset = true;
    for v in 0..m1.len()
        invariant
            equal == (m1@.len() == m2@.len() && forall|x: int| 0 <= x < v ==> m1@[x] == m2@[x]),
            subset == forall|x: int| 0 <= x < v && m1@[x] ==> x < m2@.len() && m2@[x],
    {
        let a = m1[v];
        let b = v < m2.len() && m2[v];
        if equal && v < m2.len() && a != m2[v] {
            equal = false;
        }
        if a && !b {
            subset = false;
        }
    }
    if equal {
        assert(m1@ =~= m2@);
        diff < 0
    } else {
        subset
    }
}

/// The sets that no other unplaced set comes before within `mask`.
pub fn extract_dominators(info: &SetInfo, placed: &[bool], mask: &[bool]) -> (r: Vec<Dominator>)
    requires
        placed@.len() == info.masks().len(),
        info.masks().len() <= 0x4000_0000,
    ensures
        r@ == dominator_list(info.masks(), placed@, mask@, info.masks().len()),
{
    let n = info.sets.len();
    let ghost sets = info.masks();
    let mut out: Vec<Dominator> = Vec::new();
    for i in 0..n
        invariant
            n == info.sets@.len(),
            sets == info.masks(),
            placed@.len() == n,
            n <= 0x4000_0000,
            out@ == dominator_list(sets, placed@, mask@, i as nat),
    {
        if !placed[i] {
            let mut is_dominator = true;
            let mut j: usize = 0;
            while j < n
                invariant
                    n == info.sets@.len(),
                    sets == info.masks(),
                    placed@.len() == n,
                    n <= 0x4000_0000,
                    j <= n,
                    i < n,
                    is_dominator == forall|k: int| 0 <= k < j && k != i && !placed@[k] ==> !#[trigger] set_less(sets[k], sets[i as int], mask@, k - i),
                decreases n - j,
            {
                if j != i && !placed[j] {
                    let diff: isize = (j as isize) - (i as isize);
                    assert(sets[j as int] == info.sets@[j as int]@ && sets[i as int] == info.sets@[i as int]@);
                    let less = set_is_less_than(&info.sets[j], &info.sets[i], mask, diff);
                    assert(diff as int == j - i);
                    assert(less == set_less(sets[j as int], sets[i as int], mask@, j - i));
                    if less {
                        is_dominator = false;
                    }
                }
                j = j + 1;
            }
            if is_dominator {
                let m = meet_vec(&copy_slice(mask), &info.sets[i]);
                let size = count_mask(&m);
                assert(sets[i as int] == info.sets@[i as int]@);
                out.push(Dominator { index: i, size, cost: LARGE_NUMBER, bound: 0 });
            }
        }
    }
    out
}

fn copy_slice(m: &[bool]) -> (r: Vec<bool>)
    ensures
        r@ == m@,
{
    let mut out: Vec<bool> = Vec::new();
    for v in 0..m.len()
        invariant
            out@ == m@.take(v as int),
    {
        out.push(m[v]);
        assert(m@.take(v + 1) =~= m@.take(v as int).push(m@[v as int]));
    }
    assert(m@.take(m@.len() as int) =~= m@);
    out
}

/// The variables not in `set`, over `n_vars` variables.
pub fn complement(n_vars: usize, set: &[bool]) -> (r: Vec<bool>)
    ensures
        r@ == Seq::new(n_vars as nat, |v: int| !(v < set@.len() && set@[v])),
{
    let mut out: Vec<bool> = Vec::new();
    for v in 0..n_vars
        invariant
            out@ == Seq::new(v as nat, |x: int| !(x < set@.len() && set@[x])),
    {
        let x = !(v < set.len() && set[v]);
        out.push(x);
        assert(out@ =~= Seq::new((v + 1) as nat, |y: int| !(y < set@.len() && set@[y])));
    }
    out
}


/// The union of the unplaced sets among the first `k`, other than `d`.
pub open spec fn others_union(sets: Seq<Seq<bool>>, placed: Seq<bool>, d: int, n_vars: nat, k: nat) -> Seq<bool>
    decreases k,
{
    if k == 0 {
        empty_mask(n_vars)
    } else {
        let p = others_union(sets, placed, d, n_vars, (k - 1) as nat);
        if k - 1 != d && !placed[k - 1] { union_mask(p, sets[k - 1]) } else { p }
    }
}

/// The lower bound of placing dominator `d` next: its own new variables
/// for each remaining step, and one for each new variable that only the
/// other remaining sets hold.
pub open spec fn dominator_bound(sets: Seq<Seq<bool>>, placed: Seq<bool>, mask: Seq<bool>, d: Dominator, n_rem: int, n_vars: nat) -> int {
    let others = others_union(sets, placed, d.index as int, n_vars, sets.len());
    d.size * n_rem + count_members(
        Seq::new(n_vars, |v: int| others[v] && v < mask.len() && mask[v] && !(v < sets[d.index as int].len() && sets[d.index as int][v])),
    )
}

proof fn lemma_others_len(sets: Seq<Seq<bool>>, placed: Seq<bool>, d: int, n_vars: nat, k: nat)
    ensures
        others_union(sets, placed, d, n_vars, k).len() == n_vars,
    decreases k,
{
    if k > 0 {
        lemma_others_len(sets, placed, d, n_vars, (k - 1) as nat);
    }
}

/// Sets the bound of each dominator (see [`dominator_bound`]).
fn compute_bounds(info: &SetInfo, placed: &Vec<bool>, n_placed: usize, mask: &Vec<bool>, dominators: &mut Vec<Dominator>)
    requires
        small_enough(info),
        placed@.len() == info.masks().len(),
        n_placed <= info.masks().len(),
        forall|k: int| 0 <= k < old(dominators)@.len() ==> (#[trigger] old(dominators)@[k]).size <= info.vars_count()
            && old(dominators)@[k].index < info.masks().len(),
    ensures
        final(dominators)@.len() == old(dominators)@.len(),
        forall|k: int| 0 <= k < final(dominators)@.len() ==> {
            let d = #[trigger] final(dominators)@[k];
            let d0 = old(dominators)@[k];
            &&& d.index == d0.index
            &&& d.size == d0.size
            &&& d.cost == d0.cost
            &&& d.bound as int == dominator_bound(info.masks(), placed@, mask@, d0, info.masks().len() - n_placed, info.vars_count())
        },
{
    proof {
        use_type_invariant(info);
    }
    let n = info.sets.len();
    let nv = info.n_vars;
    let n_rem = n - n_placed;
    let ghost sets = info.masks();
    let len = dominators.len();
    for k in 0..len
        invariant
            len == old(dominators)@.len(),
            n == info.sets@.len(),
            sets == info.masks(),
            nv == info.n_vars,
            nv * (n + 1) <= 0x4000_0000,
            n_rem == n - n_placed,
            n_placed <= n,
            placed@.len() == n,
            forall|i: int| 0 <= i < info.sets@.len() ==> (#[trigger] info.sets@[i])@.len() == info.n_vars,
            dominators@.len() == old(dominators)@.len(),
            forall|j: int| 0 <= j < old(dominators)@.len() ==> (#[trigger] old(dominators)@[j]).size <= nv
                && old(dominators)@[j].index < n,
            forall|j: int| k <= j < dominators@.len() ==> #[trigger] dominators@[j] == old(dominators)@[j],
            forall|j: int| 0 <= j < k ==> {
                let d = #[trigger] dominators@[j];
                let d0 = old(dominators)@[j];
                &&& d.index == d0.index
                &&& d.size == d0.size
                &&& d.cost == d0.cost
                &&& d.bound as int == dominator_bound(sets, placed@, mask@, d0, n - n_placed, nv as nat)
            },
    {
        let d = dominators[k];
        let mut others = falses(nv);
        for j in 0..n
            invariant
                n == info.sets@.len(),
                sets == info.masks(),
                placed@.len() == n,
                d.index < n,
                others@ == others_union(sets, placed@, d.index as int, nv as nat, j as nat),
        {
            if j != d.index && !placed[j] {
                add_mask(&mut others, &info.sets[j]);
                assert(sets[j as int] == info.sets@[j as int]@);
            }
        }
        let set_d = &info.sets[d.index];
        assert(sets[d.index as int] == set_d@);
        let ghost target = Seq::new(nv as nat, |v: int| others@[v] && v < mask@.len() && mask@[v] && !(v < set_d@.len() && set_d@[v]));
        let mut extra: Vec<bool> = Vec::new();
        proof {
            lemma_others_len(sets, placed@, d.index as int, nv as nat, n as nat);
        }
        for v in 0..nv
            invariant
                others@.len() == nv,
                extra@ == target.take(v as int),
                target == Seq::new(nv as nat, |v: int| others@[v] && v < mask@.len() && mask@[v] && !(v < set_d@.len() && set_d@[v])),
        {
            let x = others[v] && v < mask.len() && mask[v] && !(v < set_d.len() && set_d[v]);
            extra.push(x);
            assert(target.take(v + 1) =~= target.take(v as int).push(x));
        }
        assert(target.take(nv as int) =~= target);
        let c = count_mask(&extra);
        proof {
            lemma_count_bound(extra@);
            assert(d.size * n_rem <= nv * n) by (nonlinear_arith)
                requires
                    d.size <= nv,
                    n_rem <= n,
            ;
            assert(nv * n + nv == nv * (n + 1)) by (nonlinear_arith);
        }
        let bound: i32 = (d.size * n_rem) as i32 + c as i32;
        dominators.set(k, Dominator { index: d.index, size: d.size, cost: d.cost, bound });
    }
}

/// Whether `x` is an entry of `s`.
spec fn taken_from(x: Dominator, s: Seq<Dominator>) -> bool {
    exists|j: int| 0 <= j < s.len() && #[trigger] s[j] == x
}

/// Where `x` goes among the first `j` entries of `done`: after the last of
/// them whose size is at most its own.
pub open spec fn size_pos(done: Seq<Dominator>, x: Dominator, j: nat) -> nat
    decreases j,
{
    if j == 0 || done[j - 1].size <= x.size {
        j
    } else {
        size_pos(done, x, (j - 1) as nat)
    }
}

/// The dominators ordered by size by insertion, equal sizes keeping their
/// order.
pub open spec fn size_sort(s: Seq<Dominator>) -> Seq<Dominator>
    decreases s.len(),
{
    if s.len() == 0 {
        s
    } else {
        let d = size_sort(s.drop_last());
        d.insert(size_pos(d, s.last(), d.len()) as int, s.last())
    }
}

proof fn lemma_size_pos(done: Seq<Dominator>, x: Dominator, j: nat)
    ensures
        size_pos(done, x, j) <= j,
    decreases j,
{
    if j > 0 && done[j - 1].size > x.size {
        lemma_size_pos(done, x, (j - 1) as nat);
    }
}

proof fn lemma_size_sort_len(s: Seq<Dominator>)
    ensures
        size_sort(s).len() == s.len(),
    decreases s.len(),
{
    if s.len() > 0 {
        lemma_size_sort_len(s.drop_last());
        lemma_size_pos(size_sort(s.drop_last()), s.last(), size_sort(s.drop_last()).len());
    }
}

/// Orders the dominators by size, keeping the order of equal sizes.
fn sort_by_size(v: &mut Vec<Dominator>)
    ensures
        final(v)@ == size_sort(old(v)@),
        final(v)@.len() == old(v)@.len(),
        forall|k: int| 0 <= k < final(v)@.len() ==> taken_from(final(v)@[k], old(v)@),
{
    let n = v.len();
    let ghost o = old(v)@;
    assert forall|k: int| 0 <= k < v@.len() implies taken_from(v@[k], old(v)@) by {
        assert(old(v)@[k] == v@[k]);
    }
    if n == 0 {
        assert(o =~= Seq::<Dominator>::empty());
        return;
    }
    assert(o.take(1).drop_last() =~= Seq::<Dominator>::empty());
    assert(size_sort(o.take(1).drop_last()).len() == 0);
    assert(size_pos(size_sort(o.take(1).drop_last()), o[0], 0) == 0);
    assert(o.take(1).last() == o[0]);
    assert(size_sort(o.take(1)) =~= seq![o[0]]);
    assert(v@ =~= size_sort(o.take(1)) + o.skip(1));
    let mut i: usize = 1;
    while i < n
        invariant
            n == v@.len(),
            o == old(v)@,
            1 <= i <= n,
            v@.len() == old(v)@.len(),
            v@ == size_sort(o.take(i as int)) + o.skip(i as int),
            forall|k: int| 0 <= k < v@.len() ==> taken_from(v@[k], old(v)@),
        decreases n - i,
    {
        let ghost d = size_sort(o.take(i as int));
        let ghost x = o[i as int];
        proof {
            lemma_size_sort_len(o.take(i as int));
            assert(v@[i as int] == x);
        }
        assert(v@ =~= d.take(i as int) + seq![x] + d.subrange(i as int, i as int) + o.skip(i + 1));
        let mut j = i;
        while j > 0 && v[j - 1].size > v[j].size
            invariant
                n == v@.len(),
                j <= i < n,
                d.len() == i,
                v@.len() == old(v)@.len(),
                v@ == d.take(j as int) + seq![x] + d.subrange(j as int, i as int) + o.skip(i + 1),
                size_pos(d, x, i as nat) == size_pos(d, x, j as nat),
                forall|k: int| 0 <= k < v@.len() ==> taken_from(v@[k], old(v)@),
            decreases j,
        {
            let a = v[j - 1];
            let b = v[j];
            let ghost before = v@;
            assert(a == d[j - 1]);
            assert(b == x);
            v.set(j - 1, b);
            v.set(j, a);
            assert forall|k: int| 0 <= k < v@.len() implies taken_from(v@[k], old(v)@) by {
                if k == j - 1 {
                    assert(v@[k] == before[j as int]);
                    assert(taken_from(before[j as int], old(v)@));
                } else if k == j {
                    assert(v@[k] == before[j - 1]);
                    assert(taken_from(before[j - 1], old(v)@));
                } else {
                    assert(v@[k] == before[k]);
                    assert(taken_from(before[k], old(v)@));
                }
            }
            assert(v@ =~= d.take(j - 1) + seq![x] + d.subrange(j - 1, i as int) + o.skip(i + 1));
            j = j - 1;
        }
        proof {
            if j > 0 {
                assert(v@[j - 1] == d[j - 1]);
                assert(v@[j as int] == x);
            }
            assert(size_pos(d, x, j as nat) == j);
            assert(o.take(i + 1).drop_last() =~= o.take(i as int));
            assert(o.take(i + 1).last() == x);
            assert(size_sort(o.take(i + 1)) == d.insert(j as int, x));
            assert(v@ =~= size_sort(o.take(i + 1)) + o.skip(i + 1));
        }
        i = i + 1;
    }
    assert(o.take(n as int) =~= o);
    assert(v@ =~= size_sort(o));
}

/// What the cache keeps for a set of placed sets: the best next set found
/// and the cost from there.
struct CacheEntry {
    key: Vec<bool>,
    index: usize,
    cost: i32,
}

spec fn cache_ok(cache: Seq<CacheEntry>) -> bool {
    forall|i: int| 0 <= i < cache.len() ==> 0 <= (#[trigger] cache[i]).cost <= LARGE_NUMBER
}

fn same_key(a: &Vec<bool>, b: &Vec<bool>) -> (r: bool)
    ensures
        r == (a@ == b@),
{
    if a.len() != b.len() {
        return false;
    }
    for v in 0..a.len()
        invariant
            a@.len() == b@.len(),
            forall|x: int| 0 <= x < v ==> a@[x] == b@[x],
    {
        if a[v] != b[v] {
            return false;
        }
    }
    assert(a@ =~= b@);
    true
}

/// `cache[e]` is the first entry kept for `key`.
spec fn first_entry(cache: Seq<CacheEntry>, key: Seq<bool>, e: int) -> bool {
    &&& 0 <= e < cache.len()
    &&& cache[e].key@ == key
    &&& forall|f: int| 0 <= f < e ==> (#[trigger] cache[f]).key@ != key
}

/// The index and cost of the first entry kept for `key`, if any.
fn cache_lookup(cache: &Vec<CacheEntry>, key: &Vec<bool>) -> (r: Option<(usize, i32)>)
    requires
        cache_ok(cache@),
    ensures
        r matches Some((i, c)) ==> 0 <= c <= LARGE_NUMBER && exists|e: int| first_entry(cache@, key@, e)
            && cache@[e].index == i && cache@[e].cost == c,
        r is None <==> forall|e: int| 0 <= e < cache@.len() ==> (#[trigger] cache@[e]).key@ != key@,
{
    for e in 0..cache.len()
        invariant
            cache_ok(cache@),
            forall|f: int| 0 <= f < e ==> (#[trigger] cache@[f]).key@ != key@,
    {
        if same_key(&cache[e].key, key) {
            assert(first_entry(cache@, key@, e as int));
            return Some((cache[e].index, cache[e].cost));
        }
    }
    None
}

/// The union of the placed sets among the first `k`.
pub open spec fn placed_union(sets: Seq<Seq<bool>>, placed: Seq<bool>, n_vars: nat, k: nat) -> Seq<bool>
    decreases k,
{
    if k == 0 {
        empty_mask(n_vars)
    } else {
        let p = placed_union(sets, placed, n_vars, (k - 1) as nat);
        if placed[k - 1] { union_mask(p, sets[k - 1]) } else { p }
    }
}

/// The variables that no placed set holds.
pub open spec fn remaining_of(sets: Seq<Seq<bool>>, placed: Seq<bool>, n_vars: nat) -> Seq<bool> {
    let covered = placed_union(sets, placed, n_vars, sets.len());
    Seq::new(n_vars, |v: int| !(v < covered.len() && covered[v]))
}

/// The dominators with their bounds set (see [`dominator_bound`]).
pub open spec fn with_bounds(d: Seq<Dominator>, sets: Seq<Seq<bool>>, placed: Seq<bool>, mask: Seq<bool>, n_rem: int, n_vars: nat) -> Seq<Dominator> {
    Seq::new(d.len(), |k: int| Dominator { bound: dominator_bound(sets, placed, mask, d[k], n_rem, n_vars) as i32, ..d[k] })
}

/// The candidates tried next: at depth 0 or below only the set adding
/// least to the placed ones; otherwise the dominators, and when there are
/// several, ordered by size with their bounds set.
pub open spec fn search_candidates(sets: Seq<Seq<bool>>, n_vars: nat, placed: Seq<bool>, n_placed: nat, depth: int) -> Seq<Dominator> {
    let rem = remaining_of(sets, placed, n_vars);
    if depth <= 0 {
        let dead = Seq::new(n_vars, |v: int| !(v < rem.len() && rem[v]));
        let am = arg_min_run(sets, placed, dead, sets.len());
        seq![Dominator { index: am.0 as usize, bound: 0, cost: LARGE_NUMBER, size: (am.1 - count_members(dead)) as usize }]
    } else {
        let d = dominator_list(sets, placed, rem, sets.len());
        if d.len() > 1 {
            with_bounds(size_sort(d), sets, placed, rem, sets.len() - n_placed, n_vars)
        } else {
            d
        }
    }
}

/// `cache[e]` is the first entry for `key`; an entry is a key, the best
/// next set and the cost from there.
pub open spec fn first_key(cache: Seq<(Seq<bool>, usize, i32)>, key: Seq<bool>, e: int) -> bool {
    &&& 0 <= e < cache.len()
    &&& cache[e].0 == key
    &&& forall|f: int| 0 <= f < e ==> (#[trigger] cache[f]).0 != key
}

/// The branch and bound from the sets `placed` (`n_placed` of them), with
/// the cache before it: the least cost found and the cache after it. Done
/// when all are placed; hopeless when the allowance is negative; answered
/// by the cache when it holds the placed sets; otherwise the candidates
/// are tried (see [`search_loop`]) and the best is added to the cache.
pub open spec fn search(
    sets: Seq<Seq<bool>>,
    n_vars: nat,
    placed: Seq<bool>,
    n_placed: nat,
    cache: Seq<(Seq<bool>, usize, i32)>,
    depth: int,
    allocated: int,
) -> (int, Seq<(Seq<bool>, usize, i32)>)
    decreases sets.len() - n_placed, 1nat, 0nat,
{
    if n_placed >= sets.len() {
        (0, cache)
    } else if allocated < 0 {
        (LARGE_NUMBER as int, cache)
    } else if exists|e: int| first_key(cache, placed, e) {
        (cache[choose|e: int| first_key(cache, placed, e)].2 as int, cache)
    } else {
        let cands = search_candidates(sets, n_vars, placed, n_placed, depth);
        let rem = remaining_of(sets, placed, n_vars);
        let best = search_loop(sets, n_vars, placed, n_placed, cands, rem, depth, 0, usize::MAX, LARGE_NUMBER as int, cache);
        (best.1, best.2.push((placed, best.0, best.1 as i32)))
    }
}

/// The candidates from the `k`-th on: one whose bound is below the best
/// cost so far is placed next, its new variables counted for each of the
/// remaining steps and the rest searched with the best cost less that as
/// allowance; a cheaper total becomes the best. Gives the best set, its
/// cost and the cache.
pub open spec fn search_loop(
    sets: Seq<Seq<bool>>,
    n_vars: nat,
    placed: Seq<bool>,
    n_placed: nat,
    cands: Seq<Dominator>,
    rem: Seq<bool>,
    depth: int,
    k: nat,
    best_index: usize,
    best_cost: int,
    cache: Seq<(Seq<bool>, usize, i32)>,
) -> (usize, int, Seq<(Seq<bool>, usize, i32)>)
    decreases sets.len() - n_placed, 0nat, cands.len() - k,
{
    if k >= cands.len() || n_placed >= sets.len() {
        (best_index, best_cost, cache)
    } else {
        let d = cands[k as int];
        if d.bound < best_cost {
            let local = count_members(meet_mask(sets[d.index as int], rem)) * (sets.len() - n_placed);
            let child = search(sets, n_vars, placed.update(d.index as int, true), n_placed + 1, cache, depth - 1, best_cost - local);
            let cost = local + child.0;
            if best_cost > cost {
                search_loop(sets, n_vars, placed, n_placed, cands, rem, depth, k + 1, d.index, cost, child.1)
            } else {
                search_loop(sets, n_vars, placed, n_placed, cands, rem, depth, k + 1, best_index, best_cost, child.1)
            }
        } else {
            search_loop(sets, n_vars, placed, n_placed, cands, rem, depth, k + 1, best_index, best_cost, cache)
        }
    }
}

spec fn cache_view(cache: Seq<CacheEntry>) -> Seq<(Seq<bool>, usize, i32)> {
    Seq::new(cache.len(), |i: int| (cache[i].key@, cache[i].index, cache[i].cost))
}

/// Every dominator of the list is an unplaced set.
proof fn lemma_dominator_list(sets: Seq<Seq<bool>>, placed: Seq<bool>, mask: Seq<bool>, k: nat)
    requires
        k <= sets.len(),
        k <= placed.len(),
        sets.len() <= usize::MAX,
    ensures
        forall|j: int| 0 <= j < dominator_list(sets, placed, mask, k).len() ==> {
            let d = #[trigger] dominator_list(sets, placed, mask, k)[j];
            &&& d.index < k
            &&& !placed[d.index as int]
            &&& d.size <= mask.len()
        },
    decreases k,
{
    if k > 0 {
        lemma_dominator_list(sets, placed, mask, (k - 1) as nat);
        lemma_count_bound(meet_mask(mask, sets[k - 1]));
        let p = dominator_list(sets, placed, mask, (k - 1) as nat);
        let q = dominator_list(sets, placed, mask, k);
        assert forall|j: int| 0 <= j < q.len() implies {
            let d = #[trigger] q[j];
            &&& d.index < k
            &&& !placed[d.index as int]
            &&& d.size <= mask.len()
        } by {
            if j < p.len() {
                assert(q[j] == p[j]);
            } else {
                assert(((k - 1) as usize) as int == k - 1);
            }
        }
    }
}

/// The branch and bound: the least cost of ordering the unplaced sets,
/// caching the best next set for each set of placed sets.
#[verifier::rlimit(50)]
fn do_find_best_set_order(
    info: &SetInfo,
    placed: Vec<bool>,
    n_placed: usize,
    cache: &mut Vec<CacheEntry>,
    depth: i32,
    allocated: i32,
) -> (r: i32)
    requires
        small_enough(info),
        placed@.len() == info.masks().len(),
        count_members(placed@) == n_placed,
        depth + n_placed >= 0,
        cache_ok(old(cache)@),
    ensures
        0 <= r <= LARGE_NUMBER,
        cache_ok(final(cache)@),
        old(cache)@.len() <= final(cache)@.len(),
        forall|i: int| 0 <= i < old(cache)@.len() ==> #[trigger] final(cache)@[i] == old(cache)@[i],
        n_placed == placed@.len() ==> r == 0 && final(cache)@ == old(cache)@,
        n_placed < placed@.len() && allocated < 0 ==> r == LARGE_NUMBER && final(cache)@ == old(cache)@,
        n_placed < placed@.len() && allocated >= 0 ==> if exists|e: int| first_entry(old(cache)@, placed@, e) {
            final(cache)@ == old(cache)@ && exists|e: int| first_entry(old(cache)@, placed@, e) && old(cache)@[e].cost == r
        } else {
            let last = final(cache)@.last();
            &&& old(cache)@.len() < final(cache)@.len()
            &&& last.key@ == placed@
            &&& last.cost == r
            &&& (last.index == usize::MAX <==> r == LARGE_NUMBER)
            &&& last.index != usize::MAX ==> last.index < placed@.len() && !placed@[last.index as int]
        },
        (r as int, cache_view(final(cache)@)) == search(info.masks(), info.vars_count(), placed@, n_placed as nat,
            cache_view(old(cache)@), depth as int, allocated as int),
    decreases info.masks().len() - n_placed,
{
    proof {
        use_type_invariant(info);
        lemma_count_bound(placed@);
    }
    let n = info.sets.len();
    let nv = info.n_vars;
    let ghost sets = info.masks();
    let n_remaining = n - n_placed;
    if n_remaining == 0 {
        return 0;
    }
    if allocated < 0 {
        return LARGE_NUMBER;
    }
    let found = cache_lookup(cache, &placed);
    if let Some((_, c)) = found {
        proof {
            let e = choose|e: int| first_entry(old(cache)@, placed@, e) && old(cache)@[e].cost == c;
            lemma_first_key_view(old(cache)@, placed@, e);
        }
        return c;
    }
    proof {
        assert forall|e: int| !first_key(cache_view(old(cache)@), placed@, e) by {
            if 0 <= e < old(cache)@.len() {
                assert(cache_view(old(cache)@)[e].0 == old(cache)@[e].key@);
            }
        }
    }
    assert(!exists|e: int| first_entry(old(cache)@, placed@, e));
    let mut covered = falses(nv);
    for i in 0..n
        invariant
            n == info.sets@.len(),
            placed@.len() == n,
            covered@.len() == nv,
            sets == info.masks(),
            nv == info.n_vars,
            covered@ == placed_union(sets, placed@, nv as nat, i as nat),
            forall|k: int| 0 <= k < info.sets@.len() ==> (#[trigger] info.sets@[k])@.len() == info.n_vars,
    {
        assert(info.sets@[i as int]@ == sets[i as int]);
        if placed[i] {
            add_mask(&mut covered, &info.sets[i]);
        }
    }
    assert(remaining_of(sets, placed@, nv as nat) =~= Seq::new(nv as nat, |v: int| !(v < covered@.len() && covered@[v])));
    let remaining_vars = complement(nv, covered.as_slice());
    let dead_vars = complement(nv, remaining_vars.as_slice());
    proof {
        assert(exists|j: int| 0 <= j < placed@.len() && !placed@[j]);
    }
    let mut dominators: Vec<Dominator> = if depth <= 0 {
        proof {
            lemma_arg_min(sets, placed@, dead_vars@, n as nat);
            lemma_union_count(dead_vars@, sets[arg_min_run(sets, placed@, dead_vars@, n as nat).0]);
            lemma_count_bound(union_mask(dead_vars@, sets[arg_min_run(sets, placed@, dead_vars@, n as nat).0]));
        }
        let (index, size) = arg_min_remaining_size(info, &placed, &dead_vars);
        let mut v: Vec<Dominator> = Vec::new();
        v.push(Dominator { index, bound: 0, cost: LARGE_NUMBER, size });
        assert(v@ =~= search_candidates(sets, nv as nat, placed@, n_placed as nat, depth as int));
        v
    } else {
        let mut d = extract_dominators(info, placed.as_slice(), remaining_vars.as_slice());
        proof {
            lemma_dominator_list(sets, placed@, remaining_vars@, n as nat);
        }
        if d.len() > 1 {
            sort_by_size(&mut d);
            let ghost sorted = d@;
            compute_bounds(info, &placed, n_placed, &remaining_vars, &mut d);
            assert forall|k: int| 0 <= k < d@.len() implies #[trigger] d@[k] == with_bounds(sorted, sets, placed@, remaining_vars@, n - n_placed, nv as nat)[k] by {
                assert(d@[k].bound as int == dominator_bound(sets, placed@, remaining_vars@, sorted[k], n - n_placed, nv as nat));
            }
            assert(d@ =~= with_bounds(sorted, sets, placed@, remaining_vars@, n - n_placed, nv as nat));
        }
        assert(d@ == search_candidates(sets, nv as nat, placed@, n_placed as nat, depth as int));
        d
    };
    let ghost cands = dominators@;
    let ghost rem = remaining_vars@;
    let ghost cv0 = cache_view(cache@);
    let ghost total = search_loop(sets, nv as nat, placed@, n_placed as nat, cands, rem, depth as int, 0, usize::MAX, LARGE_NUMBER as int, cv0);
    let mut value_index: usize = usize::MAX;
    let mut value_cost: i32 = LARGE_NUMBER;
    let len = dominators.len();
    for k in 0..len
        invariant
            len == dominators@.len(),
            n == info.sets@.len(),
            sets == info.masks(),
            nv == info.n_vars,
            nv * (n + 1) <= 0x4000_0000,
            n <= 0x4000_0000,
            small_enough(info),
            n_remaining == n - n_placed,
            0 < n_remaining <= n,
            depth + n_placed >= 0,
            placed@.len() == n,
            count_members(placed@) == n_placed,
            remaining_vars@.len() == nv,
            forall|i: int| 0 <= i < info.sets@.len() ==> (#[trigger] info.sets@[i])@.len() == info.n_vars,
            forall|j: int| 0 <= j < dominators@.len() ==> (#[trigger] dominators@[j]).index < n
                && !placed@[dominators@[j].index as int],
            0 <= value_cost <= LARGE_NUMBER,
            cache_ok(cache@),
            cands.len() == len,
            rem == remaining_vars@,
            rem == remaining_of(sets, placed@, nv as nat),
            forall|j: int| k <= j < len ==> #[trigger] dominators@[j] == cands[j],
            search_loop(sets, nv as nat, placed@, n_placed as nat, cands, rem, depth as int, k as nat, value_index,
                value_cost as int, cache_view(cache@)) == total,
            old(cache)@.len() <= cache@.len(),
            forall|i: int| 0 <= i < old(cache)@.len() ==> #[trigger] cache@[i] == old(cache)@[i],
            value_index == usize::MAX <==> value_cost == LARGE_NUMBER,
            value_index != usize::MAX ==> value_index < n && !placed@[value_index as int],
    {
        let d = dominators[k];
        if d.bound < value_cost {
            let m = meet_vec(&info.sets[d.index], remaining_vars.as_slice());
            let c = count_mask(&m);
            proof {
                lemma_count_bound(m@);
                assert(c * n_remaining <= nv * n) by (nonlinear_arith)
                    requires
                        c <= nv,
                        n_remaining <= n,
                ;
                assert(nv * n <= nv * (n + 1)) by (nonlinear_arith);
                assert(nv <= nv * (n + 1)) by (nonlinear_arith);
            }
            let local_cost: i32 = (c as i32) * (n_remaining as i32);
            let child_allocated = value_cost - local_cost;
            let mut new_key = copy_mask(&placed);
            new_key.set(d.index, true);
            proof {
                lemma_count_set(placed@, d.index as int);
            }
            let ghost cv = cache_view(cache@);
            let ghost key = new_key@;
            assert(key == placed@.update(d.index as int, true));
            assert(info.sets@[d.index as int]@ == sets[d.index as int]);
            assert(local_cost as int == count_members(meet_mask(sets[d.index as int], rem)) * (sets.len() - n_placed));
            let child = do_find_best_set_order(info, new_key, n_placed + 1, cache, depth - 1, child_allocated);
            let cost = local_cost + child;
            dominators.set(k, Dominator { index: d.index, bound: d.bound, cost, size: d.size });
            if value_cost > cost {
                value_cost = cost;
                value_index = d.index;
            }
        }
    }
    let ghost cv_end = cache_view(cache@);
    cache.push(CacheEntry { key: placed, index: value_index, cost: value_cost });
    assert(cache_view(cache@) =~= cv_end.push((cache@.last().key@, value_index, value_cost)));
    value_cost
}

proof fn lemma_first_key_view(cache: Seq<CacheEntry>, key: Seq<bool>, e: int)
    requires
        first_entry(cache, key, e),
    ensures
        first_key(cache_view(cache), key, e),
        forall|f: int| #[trigger] first_key(cache_view(cache), key, f) ==> f == e,
{
    let cv = cache_view(cache);
    assert forall|f: int| 0 <= f < e implies (#[trigger] cv[f]).0 != key by {
        assert(cache[f].key@ != key);
    }
    assert forall|f: int| #[trigger] first_key(cv, key, f) implies f == e by {
        if f < e {
            assert(cv[f].0 == cache[f].key@);
        } else if f > e {
            assert(cv[e].0 == key);
        }
    }
}


proof fn lemma_push_fresh(r: Seq<usize>, n: nat, i: usize)
    requires
        order_problem(r, n, r.len()) is None,
        i < n,
        !r.contains(i),
    ensures
        order_problem(r.push(i), n, r.len() + 1) is None,
{
    let q = r.push(i);
    lemma_problem_prefix(q, n, r.len());
    assert(q.take(q.len() - 1) =~= r);
    assert(q.take(r.len() as int) =~= r);
}

/// The facts kept while an order is built: `placed` marks exactly the
/// listed sets, which are distinct and in range.
spec fn building(result: Seq<usize>, placed: Seq<bool>, n: nat) -> bool {
    &&& placed.len() == n
    &&& forall|i: usize| (i as int) < n ==> (#[trigger] placed[i as int] <==> result.contains(i))
    &&& order_problem(result, n, result.len()) is None
    &&& count_members(placed) == result.len()
}

proof fn lemma_building_push(result: Seq<usize>, placed: Seq<bool>, n: nat, i: usize)
    requires
        building(result, placed, n),
        i < n,
        !placed[i as int],
        n <= usize::MAX,
    ensures
        building(result.push(i), placed.update(i as int, true), n),
{
    assert(!result.contains(i));
    lemma_push_fresh(result, n, i);
    lemma_count_set(placed, i as int);
    let r2 = result.push(i);
    let p2 = placed.update(i as int, true);
    assert forall|x: usize| (x as int) < n implies (#[trigger] p2[x as int] <==> r2.contains(x)) by {
        if x == i {
            assert(r2[result.len() as int] == i);
        } else {
            if r2.contains(x) {
                let m = choose|m: int| 0 <= m < r2.len() && #[trigger] r2[m] == x;
                assert(m < result.len());
                assert(result[m] == x);
            }
            if result.contains(x) {
                let m = choose|m: int| 0 <= m < result.len() && #[trigger] result[m] == x;
                assert(r2[m] == x);
            }
        }
    }
}

/// The best next set that the cache keeps for `key`, if any.
pub open spec fn cache_next(cache: Seq<(Seq<bool>, usize, i32)>, key: Seq<bool>) -> Option<usize> {
    if exists|e: int| first_key(cache, key, e) {
        Some(cache[choose|e: int| first_key(cache, key, e)].1)
    } else {
        None
    }
}

/// Following the cache from `placed`: while fewer than `n` steps were
/// taken and the cache names an unplaced set next, that set is placed.
pub open spec fn follow_cache(cache: Seq<(Seq<bool>, usize, i32)>, n: nat, placed: Seq<bool>, order: Seq<usize>, steps: nat)
    -> (Seq<usize>, Seq<bool>)
    decreases n - steps,
{
    if steps >= n {
        (order, placed)
    } else {
        match cache_next(cache, placed) {
            None => (order, placed),
            Some(i) => if i < n && !placed[i as int] {
                follow_cache(cache, n, placed.update(i as int, true), order.push(i), steps + 1)
            } else {
                (order, placed)
            },
        }
    }
}

/// The unplaced sets among the first `k` appended in index order.
pub open spec fn fill_unplaced(order: Seq<usize>, placed: Seq<bool>, k: nat) -> (Seq<usize>, Seq<bool>)
    decreases k,
{
    if k == 0 {
        (order, placed)
    } else {
        let p = fill_unplaced(order, placed, (k - 1) as nat);
        if !p.1[k - 1] {
            (p.0.push((k - 1) as usize), p.1.update(k - 1, true))
        } else {
            p
        }
    }
}

/// The order the cache leads to from nothing placed; where it stops short,
/// the unplaced sets follow in index order.
pub open spec fn cache_order(cache: Seq<(Seq<bool>, usize, i32)>, n: nat) -> Seq<usize> {
    let w = follow_cache(cache, n, empty_mask(n), seq![], 0);
    if w.0.len() < n {
        fill_unplaced(w.0, w.1, n).0
    } else {
        w.0
    }
}

/// The order the cache leads to (see [`cache_order`]).
fn extract_best_order_from_cache(info: &SetInfo, cache: &Vec<CacheEntry>) -> (r: Vec<usize>)
    requires
        cache_ok(cache@),
    ensures
        is_permutation(r@, info.masks().len()),
        r@ == cache_order(cache_view(cache@), info.masks().len()),
{
    let n = info.sets.len();
    let ghost cv = cache_view(cache@);
    let mut placed = falses(n);
    let mut result: Vec<usize> = Vec::new();
    proof {
        lemma_count_zero(placed@);
    }
    let ghost w = follow_cache(cv, n as nat, placed@, result@, 0);
    let mut steps: usize = 0;
    let mut go = true;
    while steps < n && go
        invariant
            n == info.masks().len(),
            cache_ok(cache@),
            cv == cache_view(cache@),
            building(result@, placed@, n as nat),
            steps <= n,
            go ==> follow_cache(cv, n as nat, placed@, result@, steps as nat) == w,
            !go ==> (result@, placed@) == w,
        decreases n - steps,
    {
        let found = cache_lookup(cache, &placed);
        proof {
            match found {
                Some((i, c)) => {
                    let e = choose|e: int| first_entry(cache@, placed@, e) && cache@[e].index == i && cache@[e].cost == c;
                    lemma_first_key_view(cache@, placed@, e);
                    assert(cache_next(cv, placed@) == Some(i));
                },
                None => {
                    assert forall|e: int| !first_key(cv, placed@, e) by {
                        if 0 <= e < cv.len() {
                            assert(cv[e].0 == cache@[e].key@);
                        }
                    }
                    assert(cache_next(cv, placed@) is None);
                },
            }
        }
        match found {
            None => {
                go = false;
            },
            Some((index, _)) => {
                if index < n && !placed[index] {
                    proof {
                        lemma_building_push(result@, placed@, n as nat, index);
                    }
                    result.push(index);
                    placed.set(index, true);
                } else {
                    go = false;
                }
            },
        }
        steps = steps + 1;
    }
    assert((result@, placed@) == w);
    if result.len() < n {
        let ghost w0 = result@;
        let ghost p0 = placed@;
        for index in 0..n
            invariant
                n == info.masks().len(),
                building(result@, placed@, n as nat),
                forall|k: int| 0 <= k < index ==> placed@[k],
                (result@, placed@) == fill_unplaced(w0, p0, index as nat),
        {
            if !placed[index] {
                proof {
                    lemma_building_push(result@, placed@, n as nat, index);
                }
                result.push(index);
                placed.set(index, true);
            }
        }
        proof {
            lemma_count_bound(placed@);
        }
    } else {
        proof {
            lemma_count_bound(placed@);
        }
    }
    result
}

/// An order of the sets with its cost.
#[derive(Clone, Debug, Eq, PartialEq)]
pub struct OrderingResult {
    pub order: Vec<usize>,
    pub cost: i32,
}

/// An order of all the sets, with its cost: by branch and bound, looking
/// `ordering_depth` steps ahead over dominating sets and greedily beyond;
/// for a negative depth, the greedy order.
pub fn find_best_set_order(info: &SetInfo, options: OrderingOptions) -> (r: Result<OrderingResult, OrderingError>)
    requires
        small_enough(info),
    ensures
        r matches Ok(res) && {
            &&& is_permutation(res.order@, info.masks().len())
            &&& res.cost as int == order_cost(info.masks(), res.order@, info.vars_count(), info.masks().len())
            &&& options.ordering_depth < 0 ==> res.order@ == greedy_run(info.masks(), info.vars_count(), info.masks().len()).order
            &&& options.ordering_depth >= 0 ==> res.order@ == cache_order(
                search(info.masks(), info.vars_count(), empty_mask(info.masks().len()), 0, seq![], options.ordering_depth as int,
                    LARGE_NUMBER as int).1,
                info.masks().len(),
            )
        },
{
    proof {
        use_type_invariant(info);
    }
    let n = info.sets.len();
    let order = if options.ordering_depth >= 0 {
        let placed = falses(n);
        proof {
            lemma_count_zero(placed@);
        }
        let mut cache: Vec<CacheEntry> = Vec::new();
        assert(cache_view(cache@) =~= Seq::<(Seq<bool>, usize, i32)>::empty());
        let _cost = do_find_best_set_order(info, placed, 0, &mut cache, options.ordering_depth, LARGE_NUMBER);
        extract_best_order_from_cache(info, &cache)
    } else {
        find_greedy_set_order(info)
    };
    assert(info.vars_count() * info.masks().len() <= info.vars_count() * (info.masks().len() + 1)) by (nonlinear_arith);
    match compute_order_cost(info, order.as_slice()) {
        Ok(cost) => Ok(OrderingResult { order, cost }),
        Err(e) => Err(e),
    }
}

/// Ordering the sets of a native network: not available.
pub fn find_best_set_order_from_sis() -> (r: Result<OrderingResult, OrderingError>)
    ensures
        r == Err::<OrderingResult, OrderingError>(
            OrderingError::MissingNativeSupport { operation: "find_best_set_order native set and options entry" },
        ),
{
    Err(OrderingError::MissingNativeSupport { operation: "find_best_set_order native set and options entry" })
}

} // verus!
