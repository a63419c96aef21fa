//! Helpers of the BULL sequential range method: grouping functions whose
//! supports overlap, truth tables of a few variables, and the range of two
//! functions computed directly.

use vstd::prelude::*;
use std::collections::BTreeSet;
use crate::text::{push_str, push_decimal, decimal};

verus! {

#[derive(Clone, Copy, Debug, Eq, PartialEq, Structural)]
pub enum BullUtilDisposition {
    SupportAndRangeTwoReadyBddIntegrationBlocked,
}

pub fn bull_util_disposition() -> (r: BullUtilDisposition)
    ensures
        r == BullUtilDisposition::SupportAndRangeTwoReadyBddIntegrationBlocked,
{
    BullUtilDisposition::SupportAndRangeTwoReadyBddIntegrationBlocked
}

pub fn is_sis_bdd_integration_blocked() -> (r: bool)
    ensures
        r,
{
    bull_util_disposition() == BullUtilDisposition::SupportAndRangeTwoReadyBddIntegrationBlocked
}

#[derive(Clone, Debug, Eq, PartialEq)]
pub enum BullUtilError {
    MissingSisDependencies { operation: &'static str },
    EmptySupportList,
    SupportWidthMismatch { expected: usize, actual: usize, row: usize },
    MissingRangeFunction { selected_count: usize },
    PiListTooShort { needed_index: usize, actual_len: usize },
    TruthTableVarMismatch { expected: usize, actual: usize },
    TruthTableLengthMismatch { expected: usize, actual: usize },
}

/// The message of an error.
pub open spec fn error_text(e: BullUtilError) -> Seq<char> {
    match e {
        BullUtilError::MissingSisDependencies { operation } => operation@
            + " is blocked by missing native network support"@,
        BullUtilError::EmptySupportList => "support list is empty"@,
        BullUtilError::SupportWidthMismatch { expected, actual, row } => "support row "@ + decimal(row as nat)
            + " has width "@ + decimal(actual as nat) + "; expected "@ + decimal(expected as nat),
        BullUtilError::MissingRangeFunction { selected_count } =>
            "range_2_compute requires two selected live functions; found "@ + decimal(selected_count as nat),
        BullUtilError::PiListTooShort { needed_index, actual_len } => "PI list length "@ + decimal(actual_len as nat)
            + " does not contain selected index "@ + decimal(needed_index as nat),
        BullUtilError::TruthTableVarMismatch { expected, actual } => "truth table has "@ + decimal(actual as nat)
            + " variables; expected "@ + decimal(expected as nat),
        BullUtilError::TruthTableLengthMismatch { expected, actual } => "truth table has "@ + decimal(actual as nat)
            + " entries; expected "@ + decimal(expected as nat),
    }
}

impl BullUtilError {
    /// The message describing the error.
    pub fn message(&self) -> (r: String)
        ensures
            r@ == error_text(*self),
    {
        let mut s = String::new();
        match self {
            BullUtilError::MissingSisDependencies { operation } => {
                push_str(&mut s, operation);
                push_str(&mut s, " is blocked by missing native network support");
            },
            BullUtilError::EmptySupportList => {
                push_str(&mut s, "support list is empty");
            },
            BullUtilError::SupportWidthMismatch { expected, actual, row } => {
                push_str(&mut s, "support row ");
                push_decimal(&mut s, *row as u64);
                push_str(&mut s, " has width ");
                push_decimal(&mut s, *actual as u64);
                push_str(&mut s, "; expected ");
                push_decimal(&mut s, *expected as u64);
            },
            BullUtilError::MissingRangeFunction { selected_count } => {
                push_str(&mut s, "range_2_compute requires two selected live functions; found ");
                push_decimal(&mut s, *selected_count as u64);
            },
            BullUtilError::PiListTooShort { needed_index, actual_len } => {
                push_str(&mut s, "PI list length ");
                push_decimal(&mut s, *actual_len as u64);
                push_str(&mut s, " does not contain selected index ");
                push_decimal(&mut s, *needed_index as u64);
            },
            BullUtilError::TruthTableVarMismatch { expected, actual } => {
                push_str(&mut s, "truth table has ");
                push_decimal(&mut s, *actual as u64);
                push_str(&mut s, " variables; expected ");
                push_decimal(&mut s, *expected as u64);
            },
            BullUtilError::TruthTableLengthMismatch { expected, actual } => {
                push_str(&mut s, "truth table has ");
                push_decimal(&mut s, *actual as u64);
                push_str(&mut s, " entries; expected ");
                push_decimal(&mut s, *expected as u64);
            },
        }
        assert(s@ =~= error_text(*self));
        s
    }
}

/// The support of a function: which of `width` variables it depends on.
#[derive(Debug, Eq, PartialEq)]
pub struct SupportSet {
    width: usize,
    members: Vec<bool>,
}

/// The smallest entry of `vars` that is not below `width`.
pub open spec fn smallest_outside(vars: Seq<usize>, width: usize) -> Option<usize>
    decreases vars.len(),
{
    if vars.len() == 0 {
        None
    } else {
        let p = smallest_outside(vars.drop_last(), width);
        let v = vars.last();
        if v >= width {
            match p {
                Some(w) => if v < w { Some(v) } else { Some(w) },
                None => Some(v),
            }
        } else {
            p
        }
    }
}

impl SupportSet {
    #[verifier::type_invariant]
    closed spec fn inv(self) -> bool {
        self.members@.len() == self.width
    }

    /// Membership of each variable `0..width`.
    pub closed spec fn mask(&self) -> Seq<bool> {
        self.members@
    }

    pub open spec fn has(&self, v: int) -> bool {
        0 <= v < self.mask().len() && self.mask()[v]
    }

    /// The support of the listed variables among `width`; fails, naming the
    /// smallest one, when some variable is `width` or more.
    pub fn new(width: usize, variables: &[usize]) -> (r: Result<Self, BullUtilError>)
        requires
            smallest_outside(variables@, width) != Some(usize::MAX),
        ensures
            match smallest_outside(variables@, width) {
                Some(v) => r == Err::<SupportSet, BullUtilError>(
                    BullUtilError::SupportWidthMismatch { expected: width, actual: (v + 1) as usize, row: 0 },
                ),
                None => r matches Ok(s) && s.mask().len() == width && forall|x: int| 0 <= x < width ==> (
                    #[trigger] s.mask()[x] <==> exists|i: int| 0 <= i < variables@.len() && variables@[i] == x),
            },
    {
        let mut worst: Option<usize> = None;
        for i in 0..variables.len()
            invariant
                worst == smallest_outside(variables@.take(i as int), width),
                worst is None ==> forall|k: int| 0 <= k < i ==> variables@[k] < width,
        {
            let v = variables[i];
            assert(variables@.take(i + 1).drop_last() =~= variables@.take(i as int));
            if v >= width {
                match worst {
                    Some(w) => {
                        if v < w {
                            worst = Some(v);
                        }
                    },
                    None => {
                        worst = Some(v);
                    },
                }
            }
        }
        assert(variables@.take(variables@.len() as int) =~= variables@);
        match worst {
            Some(v) => {
                Err(BullUtilError::SupportWidthMismatch { expected: width, actual: v + 1, row: 0 })
            },
            None => {
                let mut members: Vec<bool> = Vec::new();
                for x in 0..width
                    invariant
                        members@.len() == x,
                        forall|k: int| 0 <= k < x ==> members@[k] == false,
                {
                    members.push(false);
                }
                for i in 0..variables.len()
                    invariant
                        members@.len() == width,
                        forall|k: int| 0 <= k < variables@.len() ==> variables@[k] < width,
                        forall|x: int| 0 <= x < width ==> (#[trigger] members@[x] <==> exists|k: int|
                            0 <= k < i && variables@[k] == x),
                {
                    let v = variables[i];
                    members.set(v, true);
                    assert forall|x: int| 0 <= x < width implies (#[trigger] members@[x] <==> exists|k: int|
                        0 <= k < i + 1 && variables@[k] == x) by {
                        if x == v {
                            assert(variables@[i as int] == x);
                        }
                    }
                }
                Ok(SupportSet { width, members })
            },
        }
    }

    pub fn width(&self) -> (r: usize)
        ensures
            r == self.mask().len(),
    {
        proof {
            use_type_invariant(self);
        }
        self.width
    }

    pub fn contains(&self, variable: usize) -> (r: bool)
        ensures
            r == self.has(variable as int),
    {
        proof {
            use_type_invariant(self);
        }
        variable < self.width && self.members[variable]
    }

    pub fn intersects(&self, other: &Self) -> (r: bool)
        ensures
            r == masks_meet(self.mask(), other.mask()),
    {
        proof {
            use_type_invariant(self);
            use_type_invariant(other);
        }
        for v in 0..self.width
            invariant
                self.members@.len() == self.width,
                forall|x: int| 0 <= x < v ==> !(self.mask()[x] && other.has(x)),
        {
            if self.members[v] && other.contains(v) {
                assert(self.mask()[v as int] && other.has(v as int));
                return true;
            }
        }
        assert(!masks_meet(self.mask(), other.mask())) by {
            if masks_meet(self.mask(), other.mask()) {
                let x = choose|x: int| 0 <= x < self.mask().len() && self.mask()[x] && x < other.mask().len() && other.mask()[x];
                assert(!(self.mask()[x] && other.has(x)));
            }
        }
        false
    }

    /// A copy of this support.
    fn clone_support(&self) -> (r: Self)
        ensures
            r.mask() == self.mask(),
    {
        proof {
            use_type_invariant(self);
        }
        let mut members: Vec<bool> = Vec::new();
        for v in 0..self.width
            invariant
                self.members@.len() == self.width,
                members@ == self.members@.take(v as int),
        {
            members.push(self.members[v]);
            assert(self.members@.take(v + 1) =~= self.members@.take(v as int).push(self.members@[v as int]));
        }
        assert(self.members@.take(self.width as int) =~= self.members@);
        SupportSet { width: self.width, members }
    }

    /// The support of both, of this one's width.
    fn union_with(&self, other: &Self) -> (r: Self)
        ensures
            r.mask() == mask_union(self.mask(), other.mask()),
    {
        proof {
            use_type_invariant(self);
        }
        let mut members: Vec<bool> = Vec::new();
        for v in 0..self.width
            invariant
                self.members@.len() == self.width,
                members@ == mask_union(self.mask(), other.mask()).take(v as int),
        {
            let b = self.members[v] || other.contains(v);
            members.push(b);
            assert(mask_union(self.mask(), other.mask()).take(v + 1) =~= mask_union(self.mask(), other.mask()).take(
                v as int,
            ).push(b));
        }
        assert(mask_union(self.mask(), other.mask()).take(self.width as int) =~= mask_union(self.mask(), other.mask()));
        SupportSet { width: self.width, members }
    }
}

impl Clone for SupportSet {
    fn clone(&self) -> (r: Self)
        ensures
            r.mask() == self.mask(),
    {
        self.clone_support()
    }
}

/// Whether two supports share a variable.
pub open spec fn masks_meet(a: Seq<bool>, b: Seq<bool>) -> bool {
    exists|v: int| 0 <= v < a.len() && a[v] && v < b.len() && b[v]
}

/// The support of both, of the first one's width.
pub open spec fn mask_union(a: Seq<bool>, b: Seq<bool>) -> Seq<bool> {
    Seq::new(a.len(), |v: int| a[v] || (v < b.len() && b[v]))
}


/// Whether `v` is in the support `m`.
pub open spec fn holds(m: Seq<bool>, v: int) -> bool {
    0 <= v < m.len() && m[v]
}

/// The pass of variable `v` over the first `r` rows: the first present row
/// that holds `v` absorbs each later present row that holds it, which then
/// leaves. Also gives the absorbing row.
pub open spec fn var_pass(rows: Seq<Option<Seq<bool>>>, v: int, r: nat) -> (Seq<Option<Seq<bool>>>, Option<int>)
    decreases r,
{
    if r == 0 {
        (rows, None)
    } else {
        let (cur, first) = var_pass(rows, v, (r - 1) as nat);
        let row = r - 1;
        if cur[row] is Some && holds(cur[row]->Some_0, v) {
            match first {
                Some(f) => (cur.update(f, Some(mask_union(cur[f]->Some_0, cur[row]->Some_0))).update(row, None), first),
                None => (cur, Some(row)),
            }
        } else {
            (cur, first)
        }
    }
}

/// The rows after the passes of variables `0..w`, in that order.
pub open spec fn merged_rows(rows: Seq<Option<Seq<bool>>>, w: nat) -> Seq<Option<Seq<bool>>>
    decreases w,
{
    if w == 0 {
        rows
    } else {
        let prev = merged_rows(rows, (w - 1) as nat);
        var_pass(prev, w - 1, prev.len()).0
    }
}

/// The functions whose support meets `m`.
pub open spec fn meeting(m: Seq<bool>, originals: Seq<Seq<bool>>) -> Set<usize> {
    Set::new(|i: usize| i < originals.len() && masks_meet(m, originals[i as int]))
}

/// For each row left, in order, the functions whose support meets it.
pub open spec fn function_groups(merged: Seq<Option<Seq<bool>>>, originals: Seq<Seq<bool>>) -> Seq<Set<usize>>
    decreases merged.len(),
{
    if merged.len() == 0 {
        seq![]
    } else {
        let p = function_groups(merged.drop_last(), originals);
        match merged.last() {
            Some(m) => p.push(meeting(m, originals)),
            None => p,
        }
    }
}

/// The first of the first `k` supports whose width is not `w`.
pub open spec fn first_mismatch(masks: Seq<Seq<bool>>, w: nat, k: nat) -> Option<int>
    decreases k,
{
    if k == 0 {
        None
    } else {
        match first_mismatch(masks, w, (k - 1) as nat) {
            Some(r) => Some(r),
            None => if masks[k - 1].len() != w { Some(k - 1) } else { None },
        }
    }
}

pub open spec fn support_masks(supports: Seq<SupportSet>) -> Seq<Seq<bool>> {
    Seq::new(supports.len(), |i: int| supports[i].mask())
}

pub open spec fn row_masks(rows: Seq<Option<SupportSet>>) -> Seq<Option<Seq<bool>>> {
    Seq::new(
        rows.len(),
        |i: int|
            match rows[i] {
                Some(s) => Some(s.mask()),
                None => None,
            },
    )
}

/// A group of functions whose supports are linked by shared variables.
#[derive(Clone, Debug, Eq, PartialEq)]
pub struct FunctionPartition {
    pub functions: BTreeSet<usize>,
}

proof fn lemma_usize_ordered()
    ensures
        vstd::laws_cmp::obeys_cmp::<usize>(),
{
    broadcast use vstd::laws_cmp::group_laws_cmp;
}

/// Adds `i` to the set.
pub(crate) fn insert_index(set: &mut BTreeSet<usize>, i: usize)
    ensures
        final(set)@ == old(set)@.insert(i),
{
    proof {
        lemma_usize_ordered();
    }
    set.insert(i);
}

proof fn lemma_first_mismatch_stays(masks: Seq<Seq<bool>>, w: nat, k: nat, m: nat)
    requires
        k <= m <= masks.len(),
        first_mismatch(masks, w, k) is Some,
    ensures
        first_mismatch(masks, w, m) == first_mismatch(masks, w, k),
    decreases m - k,
{
    if k < m {
        lemma_first_mismatch_stays(masks, w, k, (m - 1) as nat);
    }
}

/// Groups the functions by support: rows that share a variable merge,
/// variable by variable, into the first of them; each row left gives the
/// group of functions whose support meets it.
#[verifier::rlimit(30)]
pub fn disjoint_support_functions(supports: &[SupportSet]) -> (r: Result<Vec<FunctionPartition>, BullUtilError>)
    ensures
        supports@.len() == 0 ==> r == Err::<Vec<FunctionPartition>, BullUtilError>(BullUtilError::EmptySupportList),
        supports@.len() > 0 ==> {
            let w = supports@[0].mask().len();
            let masks = support_masks(supports@);
            match first_mismatch(masks, w, masks.len()) {
                Some(row) => r == Err::<Vec<FunctionPartition>, BullUtilError>(BullUtilError::SupportWidthMismatch {
                    expected: w as usize,
                    actual: masks[row].len() as usize,
                    row: row as usize,
                }),
                None => r matches Ok(parts) && {
                    let groups = function_groups(merged_rows(masks.map_values(|m: Seq<bool>| Some(m)), w), masks);
                    &&& parts@.len() == groups.len()
                    &&& forall|k: int| 0 <= k < groups.len() ==> (#[trigger] parts@[k]).functions@ == groups[k]
                },
            }
        },
{
    if supports.len() == 0 {
        return Err(BullUtilError::EmptySupportList);
    }
    let ghost masks = support_masks(supports@);
    let width = supports[0].width();
    for row in 0..supports.len()
        invariant
            masks == support_masks(supports@),
            width == masks[0].len(),
            first_mismatch(masks, width as nat, row as nat) is None,
    {
        let w = supports[row].width();
        if w != width {
            proof {
                assert(first_mismatch(masks, width as nat, (row + 1) as nat) == Some(row as int));
                lemma_first_mismatch_stays(masks, width as nat, (row + 1) as nat, masks.len());
            }
            return Err(BullUtilError::SupportWidthMismatch { expected: width, actual: w, row });
        }
    }
    let n = supports.len();
    let mut merged: Vec<Option<SupportSet>> = Vec::new();
    for i in 0..n
        invariant
            n == supports@.len(),
            merged@.len() == i,
            masks == support_masks(supports@),
            forall|k: int| 0 <= k < i ==> (#[trigger] merged@[k]) is Some && merged@[k]->Some_0.mask() == masks[k],
    {
        merged.push(Some(supports[i].clone_support()));
    }
    let ghost rows0 = masks.map_values(|m: Seq<bool>| Some(m));
    assert(row_masks(merged@) =~= rows0);
    for variable in 0..width
        invariant
            n == merged@.len(),
            n == supports@.len(),
            row_masks(merged@) == merged_rows(rows0, variable as nat),
            rows0.len() == n,
    {
        let ghost start = row_masks(merged@);
        let mut first: Option<usize> = None;
        for row in 0..n
            invariant
                n == merged@.len(),
                start.len() == n,
                (row_masks(merged@), match first { Some(f) => Some(f as int), None => None::<int> })
                    == var_pass(start, variable as int, row as nat),
                match first { Some(f) => f < row && merged@[f as int] is Some, None => true },
        {
            let ghost before = row_masks(merged@);
            let holds_here = match &merged[row] {
                Some(s) => s.contains(variable),
                None => false,
            };
            assert(holds_here == (before[row as int] is Some && holds(before[row as int]->Some_0, variable as int)));
            if holds_here {
                match first {
                    Some(f) => {
                        let u = merged[f].as_ref().unwrap().union_with(merged[row].as_ref().unwrap());
                        merged.set(f, Some(u));
                        merged.set(row, None);
                        assert(row_masks(merged@) =~= before.update(
                            f as int,
                            Some(mask_union(before[f as int]->Some_0, before[row as int]->Some_0)),
                        ).update(row as int, None));
                    },
                    None => {
                        first = Some(row);
                    },
                }
            }
        }
    }
    let ghost fin = merged_rows(rows0, width as nat);
    let mut parts: Vec<FunctionPartition> = Vec::new();
    for k in 0..n
        invariant
            n == merged@.len(),
            n == supports@.len(),
            row_masks(merged@) == fin,
            masks == support_masks(supports@),
            parts@.len() == function_groups(fin.take(k as int), masks).len(),
            forall|j: int| 0 <= j < parts@.len() ==> (#[trigger] parts@[j]).functions@ == function_groups(
                fin.take(k as int),
                masks,
            )[j],
    {
        assert(fin.take(k + 1).drop_last() =~= fin.take(k as int));
        match &merged[k] {
            Some(support) => {
                let mut functions: BTreeSet<usize> = BTreeSet::new();
                for index in 0..n
                    invariant
                        n == supports@.len(),
                        masks == support_masks(supports@),
                        functions@ == Set::new(|i: usize| i < index && masks_meet(support.mask(), masks[i as int])),
                {
                    if support.intersects(&supports[index]) {
                        insert_index(&mut functions, index);
                    }
                    assert(functions@ =~= Set::new(|i: usize| i < index + 1 && masks_meet(support.mask(), masks[i as int])));
                }
                assert(functions@ =~= meeting(support.mask(), masks));
                parts.push(FunctionPartition { functions });
            },
            None => {},
        }
    }
    assert(fin.take(n as int) =~= fin);
    Ok(parts)
}


/// A truth table as a value: its number of variables and one entry per
/// minterm.
pub struct TableView {
    pub n_vars: usize,
    pub values: Seq<bool>,
}

/// The number of minterms of `n` variables.
pub open spec fn table_size(n: usize) -> usize {
    1usize << n
}

pub open spec fn not_values(a: Seq<bool>) -> Seq<bool> {
    Seq::new(a.len(), |i: int| !a[i])
}

pub open spec fn shorter(a: Seq<bool>, b: Seq<bool>) -> nat {
    if a.len() <= b.len() { a.len() } else { b.len() }
}

pub open spec fn and_values(a: Seq<bool>, b: Seq<bool>) -> Seq<bool> {
    Seq::new(shorter(a, b), |i: int| a[i] && b[i])
}

pub open spec fn or_values(a: Seq<bool>, b: Seq<bool>) -> Seq<bool> {
    Seq::new(shorter(a, b), |i: int| a[i] || b[i])
}

pub open spec fn not_table(t: TableView) -> TableView {
    TableView { n_vars: t.n_vars, values: not_values(t.values) }
}

/// The conjunction, when both tables have the same variables.
pub open spec fn and_table(a: TableView, b: TableView) -> Result<TableView, BullUtilError> {
    if a.n_vars != b.n_vars {
        Err(BullUtilError::TruthTableVarMismatch { expected: a.n_vars, actual: b.n_vars })
    } else {
        Ok(TableView { n_vars: a.n_vars, values: and_values(a.values, b.values) })
    }
}

/// The disjunction, when both tables have the same variables.
pub open spec fn or_table(a: TableView, b: TableView) -> Result<TableView, BullUtilError> {
    if a.n_vars != b.n_vars {
        Err(BullUtilError::TruthTableVarMismatch { expected: a.n_vars, actual: b.n_vars })
    } else {
        Ok(TableView { n_vars: a.n_vars, values: or_values(a.values, b.values) })
    }
}

/// The entries of `values` at the first `k` minterms where `cond` holds.
pub open spec fn selected_values(values: Seq<bool>, cond: Seq<bool>, k: nat) -> Seq<bool>
    decreases k,
{
    if k == 0 {
        seq![]
    } else {
        let p = selected_values(values, cond, (k - 1) as nat);
        if cond[k - 1] { p.push(values[k - 1]) } else { p }
    }
}

/// The constant value of `values` where `cond` holds: none where `cond`
/// never holds or the values there differ.
pub open spec fn cofactor_value(values: Seq<bool>, cond: Seq<bool>) -> Option<bool> {
    let sel = selected_values(values, cond, shorter(values, cond));
    if sel.len() == 0 {
        None
    } else if forall|i: int| 0 <= i < sel.len() ==> #[trigger] sel[i] == sel[0] {
        Some(sel[0])
    } else {
        None
    }
}

/// A function of `n_vars` variables, one entry per minterm.
#[derive(Clone, Debug, Eq, PartialEq)]
pub struct TruthTable {
    n_vars: usize,
    values: Vec<bool>,
}

impl View for TruthTable {
    type V = TableView;

    closed spec fn view(&self) -> TableView {
        TableView { n_vars: self.n_vars, values: self.values@ }
    }
}

impl TruthTable {
    /// The table of the given entries; fails unless there is one per minterm.
    pub fn new(n_vars: usize, values: Vec<bool>) -> (r: Result<Self, BullUtilError>)
        requires
            n_vars < usize::BITS,
        ensures
            values@.len() == table_size(n_vars) ==> (r matches Ok(t) && t@ == (TableView { n_vars, values: values@ })),
            values@.len() != table_size(n_vars) ==> r == Err::<TruthTable, BullUtilError>(
                BullUtilError::TruthTableLengthMismatch { expected: table_size(n_vars), actual: values@.len() as usize },
            ),
    {
        let expected = 1usize << n_vars;
        if values.len() != expected {
            return Err(BullUtilError::TruthTableLengthMismatch { expected, actual: values.len() });
        }
        Ok(TruthTable { n_vars, values })
    }

    /// The projection on `variable`: true on the minterms where its bit is set.
    pub fn variable(n_vars: usize, variable: usize) -> (r: Result<Self, BullUtilError>)
        requires
            variable < n_vars ==> n_vars < usize::BITS,
            variable >= n_vars ==> variable < usize::MAX,
        ensures
            variable >= n_vars ==> r == Err::<TruthTable, BullUtilError>(
                BullUtilError::TruthTableVarMismatch { expected: n_vars, actual: (variable + 1) as usize },
            ),
            variable < n_vars ==> (r matches Ok(t) && t@.n_vars == n_vars && t@.values.len() == table_size(n_vars)
                && forall|m: int| 0 <= m < table_size(n_vars) ==> #[trigger] t@.values[m] == (((m as usize) >> variable) & 1usize == 1usize)),
    {
        if variable >= n_vars {
            return Err(BullUtilError::TruthTableVarMismatch { expected: n_vars, actual: variable + 1 });
        }
        let size = 1usize << n_vars;
        let mut values: Vec<bool> = Vec::new();
        for m in 0..size
            invariant
                variable < n_vars < usize::BITS,
                values@.len() == m,
                forall|k: int| 0 <= k < m ==> #[trigger] values@[k] == (((k as usize) >> variable) & 1usize == 1usize),
        {
            values.push((m >> variable) & 1 == 1);
        }
        Ok(TruthTable { n_vars, values })
    }

    /// The constant function `value`.
    pub fn constant(n_vars: usize, value: bool) -> (r: Self)
        requires
            n_vars < usize::BITS,
        ensures
            r@.n_vars == n_vars,
            r@.values == Seq::new(table_size(n_vars) as nat, |i: int| value),
    {
        let size = 1usize << n_vars;
        let mut values: Vec<bool> = Vec::new();
        for m in 0..size
            invariant
                values@ == Seq::new(m as nat, |i: int| value),
        {
            values.push(value);
            assert(values@ =~= Seq::new((m + 1) as nat, |i: int| value));
        }
        TruthTable { n_vars, values }
    }

    /// The complement.
    pub fn not(&self) -> (r: Self)
        ensures
            r@ == not_table(self@),
    {
        let mut values: Vec<bool> = Vec::new();
        for i in 0..self.values.len()
            invariant
                values@ == not_values(self.values@).take(i as int),
        {
            values.push(!self.values[i]);
            assert(not_values(self.values@).take(i + 1) =~= not_values(self.values@).take(i as int).push(!self.values@[i as int]));
        }
        assert(not_values(self.values@).take(self.values@.len() as int) =~= not_values(self.values@));
        TruthTable { n_vars: self.n_vars, values }
    }

    fn copy(&self) -> (r: Self)
        ensures
            r@ == self@,
    {
        let mut values: Vec<bool> = Vec::new();
        for i in 0..self.values.len()
            invariant
                values@ == self.values@.take(i as int),
        {
            values.push(self.values[i]);
            assert(self.values@.take(i + 1) =~= self.values@.take(i as int).push(self.values@[i as int]));
        }
        assert(self.values@.take(self.values@.len() as int) =~= self.values@);
        TruthTable { n_vars: self.n_vars, values }
    }

    /// The conjunction; fails when the variables differ.
    pub fn and(&self, other: &Self) -> (r: Result<Self, BullUtilError>)
        ensures
            match and_table(self@, other@) {
                Ok(t) => r matches Ok(x) && x@ == t,
                Err(e) => r == Err::<TruthTable, BullUtilError>(e),
            },
    {
        if self.n_vars != other.n_vars {
            return Err(BullUtilError::TruthTableVarMismatch { expected: self.n_vars, actual: other.n_vars });
        }
        let n = if self.values.len() <= other.values.len() { self.values.len() } else { other.values.len() };
        let mut values: Vec<bool> = Vec::new();
        for i in 0..n
            invariant
                n == shorter(self.values@, other.values@),
                values@ == and_values(self.values@, other.values@).take(i as int),
        {
            values.push(self.values[i] && other.values[i]);
            assert(and_values(self.values@, other.values@).take(i + 1) =~= and_values(self.values@, other.values@).take(
                i as int,
            ).push(self.values@[i as int] && other.values@[i as int]));
        }
        assert(and_values(self.values@, other.values@).take(n as int) =~= and_values(self.values@, other.values@));
        Ok(TruthTable { n_vars: self.n_vars, values })
    }

    /// The disjunction; fails when the variables differ.
    pub fn or(&self, other: &Self) -> (r: Result<Self, BullUtilError>)
        ensures
            match or_table(self@, other@) {
                Ok(t) => r matches Ok(x) && x@ == t,
                Err(e) => r == Err::<TruthTable, BullUtilError>(e),
            },
    {
        if self.n_vars != other.n_vars {
            return Err(BullUtilError::TruthTableVarMismatch { expected: self.n_vars, actual: other.n_vars });
        }
        let n = if self.values.len() <= other.values.len() { self.values.len() } else { other.values.len() };
        let mut values: Vec<bool> = Vec::new();
        for i in 0..n
            invariant
                n == shorter(self.values@, other.values@),
                values@ == or_values(self.values@, other.values@).take(i as int),
        {
            values.push(self.values[i] || other.values[i]);
            assert(or_values(self.values@, other.values@).take(i + 1) =~= or_values(self.values@, other.values@).take(
                i as int,
            ).push(self.values@[i as int] || other.values@[i as int]));
        }
        assert(or_values(self.values@, other.values@).take(n as int) =~= or_values(self.values@, other.values@));
        Ok(TruthTable { n_vars: self.n_vars, values })
    }

    /// Whether every entry is `value`.
    pub fn is_tautology(&self, value: bool) -> (r: bool)
        ensures
            r == forall|i: int| 0 <= i < self@.values.len() ==> self@.values[i] == value,
    {
        for i in 0..self.values.len()
            invariant
                forall|k: int| 0 <= k < i ==> self.values@[k] == value,
        {
            if self.values[i] != value {
                assert(self@.values[i as int] != value);
                return false;
            }
        }
        true
    }

    /// The constant value of this function where `condition` holds, if it
    /// has one; fails when the variables differ.
    pub fn cofactor_tautology(&self, condition: &Self) -> (r: Result<Option<bool>, BullUtilError>)
        ensures
            self@.n_vars != condition@.n_vars ==> r == Err::<Option<bool>, BullUtilError>(
                BullUtilError::TruthTableVarMismatch { expected: self@.n_vars, actual: condition@.n_vars },
            ),
            self@.n_vars == condition@.n_vars ==> r == Ok::<Option<bool>, BullUtilError>(
                cofactor_value(self@.values, condition@.values),
            ),
    {
        if self.n_vars != condition.n_vars {
            return Err(BullUtilError::TruthTableVarMismatch { expected: self.n_vars, actual: condition.n_vars });
        }
        let n = if self.values.len() <= condition.values.len() { self.values.len() } else { condition.values.len() };
        let mut first: Option<bool> = None;
        let mut uniform = true;
        let ghost mut sel: Seq<bool> = seq![];
        for i in 0..n
            invariant
                n == shorter(self.values@, condition.values@),
                n <= self.values@.len(),
                n <= condition.values@.len(),
                sel == selected_values(self.values@, condition.values@, i as nat),
                first == (if sel.len() == 0 { None::<bool> } else { Some(sel[0]) }),
                uniform == forall|k: int| 0 <= k < sel.len() ==> #[trigger] sel[k] == sel[0],
        {
            let ghost prev = sel;
            if condition.values[i] {
                let v = self.values[i];
                proof {
                    sel = prev.push(v);
                }
                match first {
                    None => {
                        first = Some(v);
                        assert forall|k: int| 0 <= k < sel.len() implies #[trigger] sel[k] == sel[0] by {}
                    },
                    Some(f) => {
                        if v != f {
                            uniform = false;
                        }
                        assert(sel[0] == prev[0]);
                        proof {
                            if uniform {
                                assert forall|k: int| 0 <= k < sel.len() implies #[trigger] sel[k] == sel[0] by {
                                    if k < prev.len() {
                                        assert(sel[k] == prev[k]);
                                    }
                                }
                            } else if forall|k: int| 0 <= k < prev.len() ==> #[trigger] prev[k] == prev[0] {
                                assert(sel[sel.len() - 1] != sel[0]);
                            } else {
                                let k = choose|k: int| 0 <= k < prev.len() && #[trigger] prev[k] != prev[0];
                                assert(sel[k] != sel[0]);
                            }
                        }
                    },
                }
            }
        }
        match first {
            None => Ok(None),
            Some(f) => {
                if uniform {
                    Ok(Some(f))
                } else {
                    Ok(None)
                }
            },
        }
    }
}


pub open spec fn table_views(list: Seq<Option<TruthTable>>) -> Seq<Option<TableView>> {
    Seq::new(
        list.len(),
        |i: int|
            match list[i] {
                Some(t) => Some(t@),
                None => None,
            },
    )
}

/// Over the first `k` entries: the indices of the (at most two) first
/// present functions whose live index is in `functions`, and the live
/// index reached (present functions are counted from 0).
pub open spec fn pick_run(functions: Set<usize>, list: Seq<Option<TableView>>, k: nat) -> (Seq<int>, int)
    decreases k,
{
    if k == 0 {
        (seq![], 0)
    } else {
        let (picked, live) = pick_run(functions, list, (k - 1) as nat);
        if picked.len() >= 2 || list[k - 1] is None {
            (picked, live)
        } else if functions.contains(live as usize) {
            (picked.push(k - 1), live + 1)
        } else {
            (picked, live + 1)
        }
    }
}

/// The range of two functions, `f1` on input `n1` and `f2` on input `n2`:
/// where `f2` is constant on the onset (offset) of `f1`, the output pair
/// is fixed; otherwise `n2` is free.
pub open spec fn range_two(f1: TableView, f2: TableView, n1: TableView, n2: TableView) -> Result<TableView, BullUtilError> {
    let out1 = cofactor_value(f2.values, f1.values);
    let out2 = cofactor_value(f2.values, not_values(f1.values));
    let c1 = match out1 {
        Some(true) => and_table(n1, n2),
        Some(false) => and_table(n1, not_table(n2)),
        None => Ok(n1),
    };
    match c1 {
        Err(e) => Err(e),
        Ok(c1) => {
            let c2 = match out2 {
                Some(true) => and_table(not_table(n1), n2),
                Some(false) => and_table(not_table(n1), not_table(n2)),
                None => Ok(not_table(n1)),
            };
            match c2 {
                Err(e) => Err(e),
                Ok(c2) => or_table(c1, c2),
            }
        },
    }
}

/// Some minterm among the first `k` where `cond` holds has value `x`.
pub open spec fn taken_at(values: Seq<bool>, cond: Seq<bool>, k: nat, x: bool) -> bool {
    exists|j: int| 0 <= j < k && cond[j] && #[trigger] values[j] == x
}

proof fn lemma_selected(values: Seq<bool>, cond: Seq<bool>, k: nat)
    requires
        k <= values.len(),
        k <= cond.len(),
    ensures
        forall|j: int| 0 <= j < k && #[trigger] cond[j] ==> selected_values(values, cond, k).contains(values[j]),
        forall|i: int| 0 <= i < selected_values(values, cond, k).len() ==> taken_at(values, cond, k, #[trigger] selected_values(values, cond, k)[i]),
    decreases k,
{
    if k > 0 {
        let p = selected_values(values, cond, (k - 1) as nat);
        let sel = selected_values(values, cond, k);
        lemma_selected(values, cond, (k - 1) as nat);
        assert(sel == if cond[k - 1] { p.push(values[k - 1]) } else { p });
        assert forall|j: int| 0 <= j < k && #[trigger] cond[j] implies sel.contains(values[j]) by {
            if j < k - 1 {
                let i = choose|i: int| 0 <= i < p.len() && p[i] == values[j];
                assert(sel[i] == p[i]);
            } else {
                assert(sel[p.len() as int] == values[j]);
            }
        }
        assert forall|i: int| 0 <= i < sel.len() implies taken_at(values, cond, k, #[trigger] sel[i]) by {
            if i < p.len() {
                assert(sel[i] == p[i]);
                assert(taken_at(values, cond, (k - 1) as nat, p[i]));
                let j = choose|j: int| 0 <= j < k - 1 && cond[j] && #[trigger] values[j] == p[i];
                assert(0 <= j < k && cond[j] && values[j] == sel[i]);
            } else {
                assert(cond[k - 1]);
                assert(sel[i] == values[k - 1]);
            }
        }
    }
}

proof fn lemma_cofactor(values: Seq<bool>, cond: Seq<bool>)
    requires
        values.len() == cond.len(),
    ensures
        cofactor_value(values, cond) matches Some(v) ==> (forall|j: int| 0 <= j < values.len() && #[trigger] cond[j] ==> values[j] == v)
            && exists|j: int| 0 <= j < values.len() && #[trigger] cond[j] && values[j] == v,
        cofactor_value(values, cond) is None ==> (forall|j: int| 0 <= j < values.len() ==> !#[trigger] cond[j])
            || ((exists|j: int| 0 <= j < values.len() && #[trigger] cond[j] && values[j])
                && (exists|j: int| 0 <= j < values.len() && #[trigger] cond[j] && !values[j])),
{
    let sel = selected_values(values, cond, values.len());
    lemma_selected(values, cond, values.len());
    if sel.len() > 0 {
        assert(taken_at(values, cond, values.len(), sel[0]));
        let j0 = choose|j: int| 0 <= j < values.len() && cond[j] && #[trigger] values[j] == sel[0];
        assert(cond[j0] && values[j0] == sel[0]);
        if forall|i: int| 0 <= i < sel.len() ==> #[trigger] sel[i] == sel[0] {
            assert forall|j: int| 0 <= j < values.len() && #[trigger] cond[j] implies values[j] == sel[0] by {
                assert(sel.contains(values[j]));
                let i = choose|i: int| 0 <= i < sel.len() && sel[i] == values[j];
                assert(sel[i] == sel[0]);
            }
        } else {
            let i = choose|i: int| 0 <= i < sel.len() && #[trigger] sel[i] != sel[0];
            assert(taken_at(values, cond, values.len(), sel[i]));
            let j1 = choose|j: int| 0 <= j < values.len() && cond[j] && #[trigger] values[j] == sel[i];
            assert(cond[j1] && values[j1] == sel[i]);
            if sel[0] {
                assert(cond[j0] && values[j0]);
                assert(cond[j1] && !values[j1]);
            } else {
                assert(cond[j1] && values[j1]);
                assert(cond[j0] && !values[j0]);
            }
        }
    } else {
        assert forall|j: int| 0 <= j < values.len() implies !#[trigger] cond[j] by {
            if cond[j] {
                assert(sel.contains(values[j]));
            }
        }
    }
}

/// The range of two functions holds every output pair the functions
/// produce: at each point where the inputs `n1`, `n2` take the values
/// `f1`, `f2` have on some minterm, the range is true. When `f1` takes both
/// values, it holds nothing else: each point where it is true carries a
/// pair that some minterm produces.
pub proof fn lemma_range_two_pairs(f1: TableView, f2: TableView, n1: TableView, n2: TableView)
    requires
        f1.values.len() == f2.values.len(),
        n1.values.len() == n2.values.len(),
        n1.n_vars == n2.n_vars,
    ensures
        range_two(f1, f2, n1, n2) matches Ok(r) && r.values.len() == n1.values.len() && {
            &&& forall|j: int, p: int| 0 <= j < f1.values.len() && 0 <= p < n1.values.len()
                && #[trigger] n1.values[p] == #[trigger] f1.values[j] && n2.values[p] == f2.values[j] ==> r.values[p]
            &&& (exists|a: int| 0 <= a < f1.values.len() && #[trigger] f1.values[a])
                && (exists|b: int| 0 <= b < f1.values.len() && !#[trigger] f1.values[b])
                ==> forall|p: int| 0 <= p < n1.values.len() && #[trigger] r.values[p] ==> exists|j: int|
                    0 <= j < f1.values.len() && #[trigger] f1.values[j] == n1.values[p] && f2.values[j] == n2.values[p]
        },
{
    let nf1 = not_values(f1.values);
    lemma_cofactor(f2.values, f1.values);
    lemma_cofactor(f2.values, nf1);
    let len = n1.values.len();
    let r = range_two(f1, f2, n1, n2)->Ok_0;
    assert(r.values.len() == len);
    assert forall|j: int, p: int| 0 <= j < f1.values.len() && 0 <= p < n1.values.len()
        && #[trigger] n1.values[p] == #[trigger] f1.values[j] && n2.values[p] == f2.values[j] implies r.values[p] by {
        if f1.values[j] {
            assert(f1.values[j]);
        } else {
            assert(nf1[j]);
        }
    }
    if (exists|a: int| 0 <= a < f1.values.len() && #[trigger] f1.values[a])
        && (exists|b: int| 0 <= b < f1.values.len() && !#[trigger] f1.values[b]) {
        let a = choose|a: int| 0 <= a < f1.values.len() && #[trigger] f1.values[a];
        let b = choose|b: int| 0 <= b < f1.values.len() && !#[trigger] f1.values[b];
        assert(nf1[b]);
        assert(f1.values[a]);
        assert forall|p: int| 0 <= p < n1.values.len() && #[trigger] r.values[p] implies exists|j: int|
            0 <= j < f1.values.len() && #[trigger] f1.values[j] == n1.values[p] && f2.values[j] == n2.values[p] by {
            if n1.values[p] {
                match cofactor_value(f2.values, f1.values) {
                    Some(v) => {
                        let j = choose|j: int| 0 <= j < f2.values.len() && #[trigger] f1.values[j] && f2.values[j] == v;
                        assert(f1.values[j] == n1.values[p] && f2.values[j] == n2.values[p]);
                    },
                    None => {
                        let j1 = choose|j: int| 0 <= j < f2.values.len() && #[trigger] f1.values[j] && f2.values[j];
                        let j2 = choose|j: int| 0 <= j < f2.values.len() && #[trigger] f1.values[j] && !f2.values[j];
                        if n2.values[p] {
                            assert(f1.values[j1] == n1.values[p] && f2.values[j1] == n2.values[p]);
                        } else {
                            assert(f1.values[j2] == n1.values[p] && f2.values[j2] == n2.values[p]);
                        }
                    },
                }
            } else {
                match cofactor_value(f2.values, nf1) {
                    Some(v) => {
                        let j = choose|j: int| 0 <= j < f2.values.len() && #[trigger] nf1[j] && f2.values[j] == v;
                        assert(f1.values[j] == n1.values[p] && f2.values[j] == n2.values[p]);
                    },
                    None => {
                        let j1 = choose|j: int| 0 <= j < f2.values.len() && #[trigger] nf1[j] && f2.values[j];
                        let j2 = choose|j: int| 0 <= j < f2.values.len() && #[trigger] nf1[j] && !f2.values[j];
                        if n2.values[p] {
                            assert(f1.values[j1] == n1.values[p] && f2.values[j1] == n2.values[p]);
                        } else {
                            assert(f1.values[j2] == n1.values[p] && f2.values[j2] == n2.values[p]);
                        }
                    },
                }
            }
        }
    }
}

/// The range of the first two selected live functions of `list`, over the
/// inputs of `pi_list` at their positions.
pub open spec fn range_2_result(functions: Set<usize>, list: Seq<Option<TableView>>, pis: Seq<TableView>) -> Result<TableView, BullUtilError> {
    let picked = pick_run(functions, list, list.len()).0;
    if picked.len() != 2 {
        Err(BullUtilError::MissingRangeFunction { selected_count: picked.len() as usize })
    } else if picked[0] >= pis.len() {
        Err(BullUtilError::PiListTooShort { needed_index: picked[0] as usize, actual_len: pis.len() as usize })
    } else if picked[1] >= pis.len() {
        Err(BullUtilError::PiListTooShort { needed_index: picked[1] as usize, actual_len: pis.len() as usize })
    } else {
        let f1 = list[picked[0]]->Some_0;
        let f2 = list[picked[1]]->Some_0;
        if f2.n_vars != f1.n_vars {
            Err(BullUtilError::TruthTableVarMismatch { expected: f2.n_vars, actual: f1.n_vars })
        } else {
            range_two(f1, f2, pis[picked[0]], pis[picked[1]])
        }
    }
}

proof fn lemma_pick_run(functions: Set<usize>, list: Seq<Option<TableView>>, k: nat, m: nat)
    requires
        k <= m <= list.len(),
        pick_run(functions, list, k).0.len() >= 2,
    ensures
        pick_run(functions, list, m).0 == pick_run(functions, list, k).0,
    decreases m - k,
{
    if k < m {
        lemma_pick_run(functions, list, k, (m - 1) as nat);
    }
}

proof fn lemma_pick_run_facts(functions: Set<usize>, list: Seq<Option<TableView>>, k: nat)
    requires
        k <= list.len(),
    ensures
        pick_run(functions, list, k).0.len() <= 2,
        0 <= pick_run(functions, list, k).1 <= k,
        forall|i: int| 0 <= i < pick_run(functions, list, k).0.len() ==> {
            let p = #[trigger] pick_run(functions, list, k).0[i];
            0 <= p < k && list[p] is Some
        },
        pick_run(functions, list, k).0.len() == 2 ==> pick_run(functions, list, k).0[0] < pick_run(functions, list, k).0[1],
    decreases k,
{
    if k > 0 {
        lemma_pick_run_facts(functions, list, (k - 1) as nat);
    }
}

/// Whether a BDD table of the set is in `functions`.
fn set_has(functions: &BTreeSet<usize>, i: usize) -> (r: bool)
    ensures
        r == functions@.contains(i),
{
    proof {
        lemma_usize_ordered();
    }
    functions.contains(&i)
}

/// The range of two functions, computed directly (see [`range_2_result`]).
#[verifier::rlimit(30)]
pub fn range_2_compute(
    selected_live_functions: &FunctionPartition,
    bdd_list: &[Option<TruthTable>],
    pi_list: &[TruthTable],
) -> (r: Result<TruthTable, BullUtilError>)
    ensures
        match range_2_result(
            selected_live_functions.functions@,
            table_views(bdd_list@),
            Seq::new(pi_list@.len(), |i: int| pi_list@[i]@),
        ) {
            Ok(t) => r matches Ok(x) && x@ == t,
            Err(e) => r == Err::<TruthTable, BullUtilError>(e),
        },
{
    let ghost functions = selected_live_functions.functions@;
    let ghost list = table_views(bdd_list@);
    let ghost pis = Seq::new(pi_list@.len(), |i: int| pi_list@[i]@);
    let mut selected: Vec<usize> = Vec::new();
    let mut live_index: usize = 0;
    let n = bdd_list.len();
    let mut done = false;
    let mut k: usize = 0;
    while k < n && !done
        invariant
            n == bdd_list@.len(),
            list == table_views(bdd_list@),
            functions == selected_live_functions.functions@,
            k <= n,
            done ==> selected@.len() == 2,
            !done ==> selected@.len() < 2,
            selected@.map_values(|x: usize| x as int) == pick_run(functions, list, k as nat).0,
            live_index as int == pick_run(functions, list, k as nat).1,
        decreases n - k,
    {
        proof {
            lemma_pick_run_facts(functions, list, k as nat);
        }
        match &bdd_list[k] {
            None => {},
            Some(_) => {
                if set_has(&selected_live_functions.functions, live_index) {
                    selected.push(k);
                    if selected.len() == 2 {
                        done = true;
                    }
                }
                live_index = live_index + 1;
            },
        }
        assert(selected@.map_values(|x: usize| x as int) =~= pick_run(functions, list, (k + 1) as nat).0);
        k = k + 1;
    }
    proof {
        lemma_pick_run_facts(functions, list, k as nat);
        if done {
            lemma_pick_run(functions, list, k as nat, n as nat);
        }
    }
    let ghost picked = pick_run(functions, list, n as nat).0;
    assert(selected@.map_values(|x: usize| x as int) == picked);
    if selected.len() != 2 {
        return Err(BullUtilError::MissingRangeFunction { selected_count: selected.len() });
    }
    let k1 = selected[0];
    let k2 = selected[1];
    assert(k1 as int == picked[0] && k2 as int == picked[1]);
    proof {
        lemma_pick_run_facts(functions, list, n as nat);
    }
    if k1 >= pi_list.len() {
        return Err(BullUtilError::PiListTooShort { needed_index: k1, actual_len: pi_list.len() });
    }
    if k2 >= pi_list.len() {
        return Err(BullUtilError::PiListTooShort { needed_index: k2, actual_len: pi_list.len() });
    }
    let f1 = bdd_list[k1].as_ref().unwrap();
    let f2 = bdd_list[k2].as_ref().unwrap();
    let n1 = &pi_list[k1];
    let n2 = &pi_list[k2];
    assert(list[k1 as int] == Some(f1@));
    assert(list[k2 as int] == Some(f2@));
    assert(pis[k1 as int] == n1@ && pis[k2 as int] == n2@);
    let out1 = match f2.cofactor_tautology(f1) {
        Ok(o) => o,
        Err(e) => {
            return Err(e);
        },
    };
    let f1_bar = f1.not();
    let out2 = match f2.cofactor_tautology(&f1_bar) {
        Ok(o) => o,
        Err(e) => {
            return Err(e);
        },
    };
    let c1 = match out1 {
        Some(true) => n1.and(n2),
        Some(false) => n1.and(&n2.not()),
        None => Ok(n1.copy()),
    };
    let c1 = match c1 {
        Ok(c) => c,
        Err(e) => {
            return Err(e);
        },
    };
    let c2 = match out2 {
        Some(true) => n1.not().and(n2),
        Some(false) => n1.not().and(&n2.not()),
        None => Ok(n1.not()),
    };
    let c2 = match c2 {
        Ok(c) => c,
        Err(e) => {
            return Err(e);
        },
    };
    c1.or(&c2)
}

pub fn input_cofactor_is_blocked() -> (r: bool)
    ensures
        r,
{
    true
}

/// Cofactoring by inputs on native BDDs: not available.
pub fn input_cofactor() -> (r: Result<TruthTable, BullUtilError>)
    ensures
        r == Err::<TruthTable, BullUtilError>(BullUtilError::MissingSisDependencies { operation: "input_cofactor" }),
{
    Err(BullUtilError::MissingSisDependencies { operation: "input_cofactor" })
}


/// Row `r` is present.
pub open spec fn present(rows: Seq<Option<Seq<bool>>>, r: int) -> bool {
    0 <= r < rows.len() && rows[r] is Some
}

/// Every variable of `a` is in `b`.
pub open spec fn within(a: Seq<bool>, b: Seq<bool>) -> bool {
    forall|v: int| #[trigger] holds(a, v) ==> holds(b, v)
}

/// Every present row of `a` lies within some present row of `b`.
pub open spec fn absorbed(a: Seq<Option<Seq<bool>>>, b: Seq<Option<Seq<bool>>>) -> bool {
    forall|k: int| #[trigger] present(a, k) ==> exists|k2: int| present(b, k2) && within(a[k]->Some_0, #[trigger] b[k2]->Some_0)
}

/// At most one present row holds variable `u`.
pub open spec fn single(rows: Seq<Option<Seq<bool>>>, u: int) -> bool {
    forall|r1: int, r2: int| present(rows, r1) && present(rows, r2) && holds(#[trigger] rows[r1]->Some_0, u)
        && holds(#[trigger] rows[r2]->Some_0, u) ==> r1 == r2
}

proof fn lemma_within_trans(a: Seq<bool>, b: Seq<bool>, c: Seq<bool>)
    requires
        within(a, b),
        within(b, c),
    ensures
        within(a, c),
{
    assert forall|v: int| #[trigger] holds(a, v) implies holds(c, v) by {
        assert(holds(b, v));
    }
}

proof fn lemma_within_union(a: Seq<bool>, b: Seq<bool>)
    ensures
        within(a, mask_union(a, b)),
        a.len() >= b.len() ==> within(b, mask_union(a, b)),
        forall|v: int| #[trigger] holds(mask_union(a, b), v) ==> holds(a, v) || holds(b, v),
{
    assert forall|v: int| #[trigger] holds(a, v) implies holds(mask_union(a, b), v) by {}
    if a.len() >= b.len() {
        assert forall|v: int| #[trigger] holds(b, v) implies holds(mask_union(a, b), v) by {}
    }
}

/// The facts one pass of variable `v` keeps, after its first `r` rows.
proof fn lemma_var_pass(rows: Seq<Option<Seq<bool>>>, v: int, r: nat, w: nat)
    requires
        r <= rows.len(),
        forall|k: int| #[trigger] present(rows, k) ==> rows[k]->Some_0.len() == w,
    ensures
        ({
            let (cur, first) = var_pass(rows, v, r);
            &&& cur.len() == rows.len()
            &&& forall|k: int| #[trigger] present(cur, k) ==> cur[k]->Some_0.len() == w
            &&& forall|k: int| r <= k < rows.len() ==> #[trigger] cur[k] == rows[k]
            &&& absorbed(rows, cur)
            &&& forall|u: int| #[trigger] single(rows, u) ==> single(cur, u)
            &&& match first {
                Some(f) => 0 <= f < r && present(cur, f) && holds(cur[f]->Some_0, v)
                    && forall|k: int| 0 <= k < r && k != f && #[trigger] present(cur, k) ==> !holds(cur[k]->Some_0, v),
                None => forall|k: int| 0 <= k < r && #[trigger] present(cur, k) ==> !holds(cur[k]->Some_0, v),
            }
        }),
    decreases r,
{
    if r == 0 {
        assert forall|k: int| #[trigger] present(rows, k) implies exists|k2: int| present(rows, k2) && within(rows[k]->Some_0, #[trigger] rows[k2]->Some_0) by {
            assert(within(rows[k]->Some_0, rows[k]->Some_0));
        }
    } else {
        lemma_var_pass(rows, v, (r - 1) as nat, w);
        let (cur, first) = var_pass(rows, v, (r - 1) as nat);
        let row = r - 1;
        let (nxt, f2) = var_pass(rows, v, r);
        if cur[row] is Some && holds(cur[row]->Some_0, v) {
            match first {
                Some(f) => {
                    let a = cur[f]->Some_0;
                    let b = cur[row]->Some_0;
                    let u2 = mask_union(a, b);
                    lemma_within_union(a, b);
                    assert(nxt == cur.update(f, Some(u2)).update(row, None));
                    assert(f != row);
                    assert(present(cur, f) && present(cur, row));
                    assert(a.len() == w && b.len() == w);
                    assert(nxt[f] == Some(u2));
                    assert(u2.len() == a.len());
                    assert(nxt.len() == cur.len());
                    assert forall|k: int| #[trigger] present(nxt, k) implies nxt[k]->Some_0.len() == w by {
                        if k == f {
                            assert(nxt[k]->Some_0 == u2);
                        } else if k == row {
                            assert(nxt[k] is None);
                        } else {
                            assert(nxt[k] == cur[k]);
                            assert(present(cur, k));
                        }
                    }
                    // every present row of cur is within a present row of nxt
                    assert forall|k: int| #[trigger] present(cur, k) implies exists|k2: int| present(nxt, k2)
                        && within(cur[k]->Some_0, #[trigger] nxt[k2]->Some_0) by {
                        if k == f || k == row {
                            assert(present(nxt, f));
                            assert(nxt[f]->Some_0 == u2);
                            if k == f {
                                assert(within(cur[k]->Some_0, nxt[f]->Some_0));
                            } else {
                                assert(within(cur[k]->Some_0, nxt[f]->Some_0));
                            }
                        } else {
                            assert(nxt[k] == cur[k]);
                            assert(present(nxt, k));
                            assert(within(cur[k]->Some_0, nxt[k]->Some_0));
                        }
                    }
                    assert forall|k: int| #[trigger] present(rows, k) implies exists|k2: int| present(nxt, k2)
                        && within(rows[k]->Some_0, #[trigger] nxt[k2]->Some_0) by {
                        let k1 = choose|k1: int| present(cur, k1) && within(rows[k]->Some_0, #[trigger] cur[k1]->Some_0);
                        let k2 = choose|k2: int| present(nxt, k2) && within(cur[k1]->Some_0, #[trigger] nxt[k2]->Some_0);
                        lemma_within_trans(rows[k]->Some_0, cur[k1]->Some_0, nxt[k2]->Some_0);
                    }
                    assert forall|u: int| #[trigger] single(rows, u) implies single(nxt, u) by {
                        assert(single(cur, u));
                        assert forall|r1: int, r2: int| present(nxt, r1) && present(nxt, r2) && holds(#[trigger] nxt[r1]->Some_0, u)
                            && holds(#[trigger] nxt[r2]->Some_0, u) implies r1 == r2 by {
                            let p1 = if r1 == f { if holds(a, u) { f } else { row } } else { r1 };
                            let p2 = if r2 == f { if holds(a, u) { f } else { row } } else { r2 };
                            if r1 != f {
                                assert(nxt[r1] == cur[r1]);
                            }
                            if r2 != f {
                                assert(nxt[r2] == cur[r2]);
                            }
                            assert(present(cur, p1) && holds(cur[p1]->Some_0, u));
                            assert(present(cur, p2) && holds(cur[p2]->Some_0, u));
                            assert(p1 == p2);
                        }
                    }
                    assert forall|k: int| 0 <= k < r && k != f && #[trigger] present(nxt, k) implies !holds(nxt[k]->Some_0, v) by {
                        if k == row {
                            assert(nxt[k] is None);
                        } else {
                            assert(nxt[k] == cur[k]);
                            assert(present(cur, k));
                        }
                    }
                },
                None => {
                    assert forall|k: int| #[trigger] present(rows, k) implies exists|k2: int| present(nxt, k2)
                        && within(rows[k]->Some_0, #[trigger] nxt[k2]->Some_0) by {
                        let k1 = choose|k1: int| present(cur, k1) && within(rows[k]->Some_0, #[trigger] cur[k1]->Some_0);
                        assert(nxt[k1] == cur[k1]);
                    }
                },
            }
        } else {
            assert forall|k: int| #[trigger] present(rows, k) implies exists|k2: int| present(nxt, k2)
                && within(rows[k]->Some_0, #[trigger] nxt[k2]->Some_0) by {
                let k1 = choose|k1: int| present(cur, k1) && within(rows[k]->Some_0, #[trigger] cur[k1]->Some_0);
                assert(nxt[k1] == cur[k1]);
            }
        }
    }
}


proof fn lemma_merged_rows(rows: Seq<Option<Seq<bool>>>, k: nat, w: nat)
    requires
        forall|i: int| #[trigger] present(rows, i) ==> rows[i]->Some_0.len() == w,
    ensures
        merged_rows(rows, k).len() == rows.len(),
        forall|i: int| #[trigger] present(merged_rows(rows, k), i) ==> merged_rows(rows, k)[i]->Some_0.len() == w,
        absorbed(rows, merged_rows(rows, k)),
        forall|u: int| 0 <= u < k ==> #[trigger] single(merged_rows(rows, k), u),
    decreases k,
{
    if k == 0 {
        assert forall|i: int| #[trigger] present(rows, i) implies exists|i2: int| present(rows, i2) && within(rows[i]->Some_0, #[trigger] rows[i2]->Some_0) by {
            assert(within(rows[i]->Some_0, rows[i]->Some_0));
        }
    } else {
        let prev = merged_rows(rows, (k - 1) as nat);
        lemma_merged_rows(rows, (k - 1) as nat, w);
        lemma_var_pass(prev, k - 1, prev.len(), w);
        let (cur, first) = var_pass(prev, k - 1, prev.len());
        assert(merged_rows(rows, k) == cur);
        assert forall|i: int| #[trigger] present(rows, i) implies exists|i2: int| present(cur, i2) && within(rows[i]->Some_0, #[trigger] cur[i2]->Some_0) by {
            let k1 = choose|k1: int| present(prev, k1) && within(rows[i]->Some_0, #[trigger] prev[k1]->Some_0);
            let k2 = choose|k2: int| present(cur, k2) && within(prev[k1]->Some_0, #[trigger] cur[k2]->Some_0);
            lemma_within_trans(rows[i]->Some_0, prev[k1]->Some_0, cur[k2]->Some_0);
        }
        assert forall|u: int| 0 <= u < k implies #[trigger] single(cur, u) by {
            if u < k - 1 {
                assert(single(prev, u));
            } else {
                assert forall|r1: int, r2: int| present(cur, r1) && present(cur, r2) && holds(#[trigger] cur[r1]->Some_0, u)
                    && holds(#[trigger] cur[r2]->Some_0, u) implies r1 == r2 by {
                }
            }
        }
    }
}

/// Group `g` is the functions meeting present row `r`.
pub open spec fn group_at(groups: Seq<Set<usize>>, g: int, merged: Seq<Option<Seq<bool>>>, originals: Seq<Seq<bool>>, r: int) -> bool {
    present(merged, r) && groups[g] == meeting(merged[r]->Some_0, originals)
}

/// The row that group `g` comes from.
pub open spec fn group_row(merged: Seq<Option<Seq<bool>>>, originals: Seq<Seq<bool>>, g: int) -> int
    decreases merged.len(),
{
    if merged.len() == 0 {
        0
    } else if g < function_groups(merged.drop_last(), originals).len() {
        group_row(merged.drop_last(), originals, g)
    } else {
        merged.len() - 1
    }
}

proof fn lemma_function_groups(merged: Seq<Option<Seq<bool>>>, originals: Seq<Seq<bool>>)
    ensures
        forall|g: int| 0 <= g < function_groups(merged, originals).len() ==> #[trigger] group_at(
            function_groups(merged, originals),
            g,
            merged,
            originals,
            group_row(merged, originals, g),
        ),
        forall|r: int| #[trigger] present(merged, r) ==> exists|g: int| 0 <= g < function_groups(merged, originals).len()
            && #[trigger] group_at(function_groups(merged, originals), g, merged, originals, r),
    decreases merged.len(),
{
    if merged.len() > 0 {
        let t = merged.drop_last();
        lemma_function_groups(t, originals);
        let p = function_groups(t, originals);
        let q = function_groups(merged, originals);
        assert(q == match merged.last() {
            Some(m) => p.push(meeting(m, originals)),
            None => p,
        });
        assert forall|r: int| #[trigger] present(t, r) implies present(merged, r) && merged[r] == t[r] by {}
        assert forall|g: int| 0 <= g < q.len() implies #[trigger] group_at(q, g, merged, originals, group_row(merged, originals, g)) by {
            if g < p.len() {
                assert(q[g] == p[g]);
                assert(group_at(p, g, t, originals, group_row(t, originals, g)));
                let r = group_row(t, originals, g);
                assert(present(merged, r) && merged[r] == t[r]);
            } else {
                assert(merged[merged.len() - 1] == merged.last());
            }
        }
        assert forall|r: int| #[trigger] present(merged, r) implies exists|g: int| 0 <= g < q.len()
            && #[trigger] group_at(q, g, merged, originals, r) by {
            if r < merged.len() - 1 {
                assert(present(t, r));
                let g = choose|g: int| 0 <= g < p.len() && #[trigger] group_at(p, g, t, originals, r);
                assert(q[g] == p[g]);
                assert(group_at(q, g, merged, originals, r));
            } else {
                assert(merged[r] == merged.last());
                assert(group_at(q, q.len() - 1, merged, originals, r));
            }
        }
    }
}

/// The partition of functions by support groups functions that share a
/// variable: such functions lie in exactly the same groups, and every
/// function that depends on some variable lies in a group.
pub proof fn lemma_support_partition(masks: Seq<Seq<bool>>, rows: Seq<Option<Seq<bool>>>, w: nat)
    requires
        forall|i: int| 0 <= i < masks.len() ==> (#[trigger] masks[i]).len() == w,
        masks.len() <= usize::MAX,
        rows.len() == masks.len(),
        forall|i: int| 0 <= i < rows.len() ==> #[trigger] rows[i] == Some(masks[i]),
    ensures
        ({
            let groups = function_groups(merged_rows(rows, w), masks);
            &&& forall|a: int, b: int, g: int| 0 <= a < masks.len() && 0 <= b < masks.len() && masks_meet(masks[a], masks[b])
                && 0 <= g < groups.len() ==> (#[trigger] groups[g].contains(a as usize) <==> #[trigger] groups[g].contains(b as usize))
            &&& forall|a: int| #![trigger masks[a]] 0 <= a < masks.len() && (exists|v: int| #[trigger] holds(masks[a], v))
                ==> exists|g: int| 0 <= g < groups.len() && #[trigger] groups[g].contains(a as usize)
        }),
{
    assert forall|i: int| #[trigger] present(rows, i) implies rows[i]->Some_0.len() == w by {}
    lemma_merged_rows(rows, w, w);
    let merged = merged_rows(rows, w);
    let groups = function_groups(merged, masks);
    lemma_function_groups(merged, masks);
    // each function's support lies within one present merged row
    assert forall|a: int| #![trigger masks[a]] 0 <= a < masks.len() implies exists|r: int| present(merged, r) && within(masks[a], #[trigger] merged[r]->Some_0) by {
        assert(rows[a] == Some(masks[a]));
        assert(present(rows, a));
        let r = choose|r: int| present(merged, r) && within(rows[a]->Some_0, #[trigger] merged[r]->Some_0);
    }
    // a present row meets function `a` exactly when it is the row holding it
    assert forall|a: int, r: int, ra: int| 0 <= a < masks.len() && present(merged, r) && present(merged, ra)
        && #[trigger] within(masks[a], merged[ra]->Some_0) && #[trigger] masks_meet(merged[r]->Some_0, masks[a]) implies r == ra by {
        let m = merged[r]->Some_0;
        let u = choose|u: int| 0 <= u < m.len() && m[u] && u < masks[a].len() && masks[a][u];
        assert(holds(masks[a], u));
        assert(holds(merged[ra]->Some_0, u));
        assert(holds(m, u));
        assert(single(merged, u));
    }
    assert forall|a: int, b: int, g: int| 0 <= a < masks.len() && 0 <= b < masks.len() && masks_meet(masks[a], masks[b])
        && 0 <= g < groups.len() implies (#[trigger] groups[g].contains(a as usize) <==> #[trigger] groups[g].contains(b as usize)) by {
        let r = group_row(merged, masks, g);
        assert(group_at(groups, g, merged, masks, r));
        let ra = choose|r: int| present(merged, r) && within(masks[a], #[trigger] merged[r]->Some_0);
        let rb = choose|r: int| present(merged, r) && within(masks[b], #[trigger] merged[r]->Some_0);
        let v = choose|v: int| 0 <= v < masks[a].len() && masks[a][v] && v < masks[b].len() && masks[b][v];
        assert(holds(masks[a], v) && holds(masks[b], v));
        assert(holds(merged[ra]->Some_0, v) && holds(merged[rb]->Some_0, v));
        assert(single(merged, v));
        assert(ra == rb);
        let m = merged[r]->Some_0;
        assert((a as usize) as int == a && (b as usize) as int == b);
        if masks_meet(m, masks[a]) {
            let u = choose|u: int| 0 <= u < m.len() && m[u] && u < masks[a].len() && masks[a][u];
            assert(holds(masks[a], u));
            assert(holds(merged[ra]->Some_0, u));
            assert(holds(m, u));
            assert(single(merged, u));
            assert(present(merged, r));
            assert(present(merged, ra));
            assert(r == ra);
            assert(holds(m, v));
            assert(masks_meet(m, masks[b]));
        }
        if masks_meet(m, masks[b]) {
            let u = choose|u: int| 0 <= u < m.len() && m[u] && u < masks[b].len() && masks[b][u];
            assert(holds(masks[b], u));
            assert(holds(merged[rb]->Some_0, u));
            assert(holds(m, u));
            assert(single(merged, u));
            assert(r == rb);
            assert(holds(m, v));
            assert(masks_meet(m, masks[a]));
        }
    }
    assert forall|a: int| #![trigger masks[a]] 0 <= a < masks.len() && (exists|v: int| #[trigger] holds(masks[a], v))
        implies exists|g: int| 0 <= g < groups.len() && #[trigger] groups[g].contains(a as usize) by {
        let v = choose|v: int| #[trigger] holds(masks[a], v);
        let ra = choose|r: int| present(merged, r) && within(masks[a], #[trigger] merged[r]->Some_0);
        assert(holds(merged[ra]->Some_0, v));
        let m = merged[ra]->Some_0;
        assert(masks_meet(m, masks[a]));
        assert(present(merged, ra));
        let g = choose|g: int| 0 <= g < groups.len() && #[trigger] group_at(groups, g, merged, masks, ra);
        assert((a as usize) as int == a);
        assert(groups[g].contains(a as usize));
    }
}

} // verus!
