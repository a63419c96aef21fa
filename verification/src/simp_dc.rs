//! Don't-care sets for node simplification, over a small owned network
//! whose node functions are Boolean expressions.

use vstd::prelude::*;
use crate::text::{push_str, push_decimal, decimal};
use crate::product::{sorted_set, sorted_of, sorted_set_of};

verus! {

/// The cone-walk limit that stands for no limit.
pub const INFINITY_LEVEL: usize = usize::MAX;

#[derive(Clone, Copy, Debug, Eq, Hash, Ord, PartialEq, PartialOrd, Structural)]
pub struct SimpNodeId(pub usize);

#[derive(Clone, Copy, Debug, Eq, PartialEq, Structural)]
pub enum SimpNodeKind {
    PrimaryInput,
    PrimaryOutput,
    Internal,
}

#[derive(Debug, Eq, PartialEq)]
pub enum BoolExpr {
    Const(bool),
    Literal { node: SimpNodeId, positive: bool },
    NodeFunction(SimpNodeId),
    And(Vec<BoolExpr>),
    Or(Vec<BoolExpr>),
    Xor(Box<BoolExpr>, Box<BoolExpr>),
    Xnor(Box<BoolExpr>, Box<BoolExpr>),
}

/// An expression as a value.
pub enum Expr {
    Const(bool),
    Lit(usize, bool),
    Func(usize),
    And(Seq<Expr>),
    Or(Seq<Expr>),
    Xor(Box<Expr>, Box<Expr>),
    Xnor(Box<Expr>, Box<Expr>),
}

pub open spec fn expr_view(e: BoolExpr) -> Expr
    decreases e, 0nat,
{
    match e {
        BoolExpr::Const(b) => Expr::Const(b),
        BoolExpr::Literal { node, positive } => Expr::Lit(node.0, positive),
        BoolExpr::NodeFunction(n) => Expr::Func(n.0),
        BoolExpr::And(terms) => Expr::And(exprs_view(terms@)),
        BoolExpr::Or(terms) => Expr::Or(exprs_view(terms@)),
        BoolExpr::Xor(l, r) => Expr::Xor(Box::new(expr_view(*l)), Box::new(expr_view(*r))),
        BoolExpr::Xnor(l, r) => Expr::Xnor(Box::new(expr_view(*l)), Box::new(expr_view(*r))),
    }
}

/// The values of a sequence of expressions.
pub open spec fn exprs_view(s: Seq<BoolExpr>) -> Seq<Expr>
    decreases s, s.len(),
{
    if s.len() == 0 {
        seq![]
    } else {
        exprs_view(s.drop_last()).push(expr_view(s.last()))
    }
}


proof fn lemma_exprs_view(s: Seq<BoolExpr>)
    ensures
        exprs_view(s).len() == s.len(),
        forall|i: int| 0 <= i < s.len() ==> #[trigger] exprs_view(s)[i] == expr_view(s[i]),
    decreases s.len(),
{
    if s.len() > 0 {
        lemma_exprs_view(s.drop_last());
    }
}

proof fn lemma_exprs_view_push(s: Seq<BoolExpr>, x: BoolExpr)
    ensures
        exprs_view(s.push(x)) == exprs_view(s).push(expr_view(x)),
{
    assert(s.push(x).drop_last() =~= s);
}

proof fn lemma_exprs_view_append(a: Seq<BoolExpr>, b: Seq<BoolExpr>)
    ensures
        exprs_view(a + b) == exprs_view(a) + exprs_view(b),
    decreases b.len(),
{
    if b.len() == 0 {
        assert(a + b =~= a);
        assert(exprs_view(a) + exprs_view(b) =~= exprs_view(a));
    } else {
        lemma_exprs_view_append(a, b.drop_last());
        assert((a + b).drop_last() =~= a + b.drop_last());
        assert(exprs_view(a) + exprs_view(b) =~= (exprs_view(a) + exprs_view(b.drop_last())).push(expr_view(b.last())));
    }
}

/// Conjunction, flattening nested conjunctions and folding constants.
pub open spec fn and_expr(l: Expr, r: Expr) -> Expr {
    if l == Expr::Const(false) || r == Expr::Const(false) {
        Expr::Const(false)
    } else if l == Expr::Const(true) {
        r
    } else if r == Expr::Const(true) {
        l
    } else {
        match l {
            Expr::And(a) => match r {
                Expr::And(b) => Expr::And(a + b),
                _ => Expr::And(a.push(r)),
            },
            _ => match r {
                Expr::And(b) => Expr::And(b.push(l)),
                _ => Expr::And(seq![l, r]),
            },
        }
    }
}

/// Disjunction, flattening nested disjunctions and folding constants.
pub open spec fn or_expr(l: Expr, r: Expr) -> Expr {
    if l == Expr::Const(true) || r == Expr::Const(true) {
        Expr::Const(true)
    } else if l == Expr::Const(false) {
        r
    } else if r == Expr::Const(false) {
        l
    } else {
        match l {
            Expr::Or(a) => match r {
                Expr::Or(b) => Expr::Or(a + b),
                _ => Expr::Or(a.push(r)),
            },
            _ => match r {
                Expr::Or(b) => Expr::Or(b.push(l)),
                _ => Expr::Or(seq![l, r]),
            },
        }
    }
}

/// Exclusive or: constants fold, a true operand is kept first, equal
/// operands give false.
pub open spec fn xor_expr(l: Expr, r: Expr) -> Expr {
    if l is Const && r is Const {
        Expr::Const(l->Const_0 != r->Const_0)
    } else if l == Expr::Const(false) {
        r
    } else if r == Expr::Const(false) {
        l
    } else if l == Expr::Const(true) {
        Expr::Xor(Box::new(Expr::Const(true)), Box::new(r))
    } else if r == Expr::Const(true) {
        Expr::Xor(Box::new(Expr::Const(true)), Box::new(l))
    } else if l == r {
        Expr::Const(false)
    } else {
        Expr::Xor(Box::new(l), Box::new(r))
    }
}

/// Equivalence: constants fold, equal operands give true.
pub open spec fn xnor_expr(l: Expr, r: Expr) -> Expr {
    if l is Const && r is Const {
        Expr::Const(l->Const_0 == r->Const_0)
    } else if l == r {
        Expr::Const(true)
    } else {
        Expr::Xnor(Box::new(l), Box::new(r))
    }
}

/// The cofactor with respect to variable `var` set to `val`: its literals
/// become constants and the expression is rebuilt by the operations above.
pub open spec fn cofactor_expr(e: Expr, var: usize, val: bool) -> Expr
    decreases e, 0nat,
{
    match e {
        Expr::Const(b) => Expr::Const(b),
        Expr::Lit(n, p) => if n == var { Expr::Const(if p { val } else { !val }) } else { Expr::Lit(n, p) },
        Expr::Func(n) => Expr::Func(n),
        Expr::And(ts) => fold_and(ts, var, val),
        Expr::Or(ts) => fold_or(ts, var, val),
        Expr::Xor(l, r) => xor_expr(cofactor_expr(*l, var, val), cofactor_expr(*r, var, val)),
        Expr::Xnor(l, r) => xnor_expr(cofactor_expr(*l, var, val), cofactor_expr(*r, var, val)),
    }
}

/// The conjunction of the cofactors of the terms, from true.
pub open spec fn fold_and(ts: Seq<Expr>, var: usize, val: bool) -> Expr
    decreases ts, ts.len(),
{
    if ts.len() == 0 {
        Expr::Const(true)
    } else {
        and_expr(fold_and(ts.drop_last(), var, val), cofactor_expr(ts.last(), var, val))
    }
}

/// The disjunction of the cofactors of the terms, from false.
pub open spec fn fold_or(ts: Seq<Expr>, var: usize, val: bool) -> Expr
    decreases ts, ts.len(),
{
    if ts.len() == 0 {
        Expr::Const(false)
    } else {
        or_expr(fold_or(ts.drop_last(), var, val), cofactor_expr(ts.last(), var, val))
    }
}

fn const_of(e: &BoolExpr) -> (r: Option<bool>)
    ensures
        r == (match expr_view(*e) {
            Expr::Const(b) => Some(b),
            _ => None,
        }),
{
    match e {
        BoolExpr::Const(b) => Some(*b),
        _ => None,
    }
}

/// Structural equality of two expressions.
fn expr_eq(a: &BoolExpr, b: &BoolExpr) -> (r: bool)
    ensures
        r == (expr_view(*a) == expr_view(*b)),
    decreases a,
{
    match a {
        BoolExpr::Const(x) => match b {
            BoolExpr::Const(y) => *x == *y,
            _ => false,
        },
        BoolExpr::Literal { node: n1, positive: p1 } => match b {
            BoolExpr::Literal { node: n2, positive: p2 } => n1.0 == n2.0 && *p1 == *p2,
            _ => false,
        },
        BoolExpr::NodeFunction(n1) => match b {
            BoolExpr::NodeFunction(n2) => n1.0 == n2.0,
            _ => false,
        },
        BoolExpr::And(t1) => match b {
            BoolExpr::And(t2) => terms_eq(t1, t2),
            _ => false,
        },
        BoolExpr::Or(t1) => match b {
            BoolExpr::Or(t2) => terms_eq(t1, t2),
            _ => false,
        },
        BoolExpr::Xor(l1, r1) => match b {
            BoolExpr::Xor(l2, r2) => expr_eq(l1, l2) && expr_eq(r1, r2),
            _ => false,
        },
        BoolExpr::Xnor(l1, r1) => match b {
            BoolExpr::Xnor(l2, r2) => expr_eq(l1, l2) && expr_eq(r1, r2),
            _ => false,
        },
    }
}

fn terms_eq(t1: &Vec<BoolExpr>, t2: &Vec<BoolExpr>) -> (r: bool)
    ensures
        r == (exprs_view(t1@) == exprs_view(t2@)),
    decreases t1,
{
    proof {
        lemma_exprs_view(t1@);
        lemma_exprs_view(t2@);
    }
    if t1.len() != t2.len() {
        return false;
    }
    for i in 0..t1.len()
        invariant
            t1@.len() == t2@.len(),
            exprs_view(t1@).len() == t1@.len(),
            exprs_view(t2@).len() == t2@.len(),
            forall|j: int| 0 <= j < t1@.len() ==> #[trigger] exprs_view(t1@)[j] == expr_view(t1@[j]),
            forall|j: int| 0 <= j < t2@.len() ==> #[trigger] exprs_view(t2@)[j] == expr_view(t2@[j]),
            forall|j: int| 0 <= j < i ==> expr_view(t1@[j]) == expr_view(t2@[j]),
    {
        if !expr_eq(&t1[i], &t2[i]) {
            assert(exprs_view(t1@)[i as int] != exprs_view(t2@)[i as int]);
            return false;
        }
    }
    assert(exprs_view(t1@) =~= exprs_view(t2@));
    true
}


impl BoolExpr {
    pub fn zero() -> (r: Self)
        ensures
            expr_view(r) == Expr::Const(false),
    {
        BoolExpr::Const(false)
    }

    pub fn one() -> (r: Self)
        ensures
            expr_view(r) == Expr::Const(true),
    {
        BoolExpr::Const(true)
    }

    pub fn node_function(node: SimpNodeId) -> (r: Self)
        ensures
            expr_view(r) == Expr::Func(node.0),
    {
        BoolExpr::NodeFunction(node)
    }

    pub fn positive_literal(node: SimpNodeId) -> (r: Self)
        ensures
            expr_view(r) == Expr::Lit(node.0, true),
    {
        BoolExpr::Literal { node, positive: true }
    }

    pub fn and(left: BoolExpr, right: BoolExpr) -> (r: Self)
        ensures
            expr_view(r) == and_expr(expr_view(left), expr_view(right)),
    {
        let lc = const_of(&left);
        let rc = const_of(&right);
        if lc == Some(false) || rc == Some(false) {
            return BoolExpr::Const(false);
        }
        if lc == Some(true) {
            return right;
        }
        if rc == Some(true) {
            return left;
        }
        let ghost lv = expr_view(left);
        let ghost rv = expr_view(right);
        match left {
            BoolExpr::And(mut terms) => match right {
                BoolExpr::And(mut other) => {
                    let ghost a = terms@;
                    let ghost b = other@;
                    terms.append(&mut other);
                    proof {
                        lemma_exprs_view_append(a, b);
                    }
                    BoolExpr::And(terms)
                },
                e => {
                    let ghost a = terms@;
                    proof {
                        lemma_exprs_view_push(a, e);
                    }
                    terms.push(e);
                    BoolExpr::And(terms)
                },
            },
            l => match right {
                BoolExpr::And(mut terms) => {
                    let ghost b = terms@;
                    proof {
                        lemma_exprs_view_push(b, l);
                    }
                    terms.push(l);
                    BoolExpr::And(terms)
                },
                r => {
                    let v = vec![l, r];
                    proof {
                        lemma_exprs_view(v@);
                        assert(v@[0] == l && v@[1] == r);
                        assert(exprs_view(v@) =~= seq![lv, rv]);
                    }
                    BoolExpr::And(v)
                },
            },
        }
    }

    pub fn or(left: BoolExpr, right: BoolExpr) -> (r: Self)
        ensures
            expr_view(r) == or_expr(expr_view(left), expr_view(right)),
    {
        let lc = const_of(&left);
        let rc = const_of(&right);
        if lc == Some(true) || rc == Some(true) {
            return BoolExpr::Const(true);
        }
        if lc == Some(false) {
            return right;
        }
        if rc == Some(false) {
            return left;
        }
        let ghost lv = expr_view(left);
        let ghost rv = expr_view(right);
        match left {
            BoolExpr::Or(mut terms) => match right {
                BoolExpr::Or(mut other) => {
                    let ghost a = terms@;
                    let ghost b = other@;
                    terms.append(&mut other);
                    proof {
                        lemma_exprs_view_append(a, b);
                    }
                    BoolExpr::Or(terms)
                },
                e => {
                    let ghost a = terms@;
                    proof {
                        lemma_exprs_view_push(a, e);
                    }
                    terms.push(e);
                    BoolExpr::Or(terms)
                },
            },
            l => match right {
                BoolExpr::Or(mut terms) => {
                    let ghost b = terms@;
                    proof {
                        lemma_exprs_view_push(b, l);
                    }
                    terms.push(l);
                    BoolExpr::Or(terms)
                },
                r => {
                    let v = vec![l, r];
                    proof {
                        lemma_exprs_view(v@);
                        assert(v@[0] == l && v@[1] == r);
                        assert(exprs_view(v@) =~= seq![lv, rv]);
                    }
                    BoolExpr::Or(v)
                },
            },
        }
    }

    pub fn xor(left: BoolExpr, right: BoolExpr) -> (r: Self)
        ensures
            expr_view(r) == xor_expr(expr_view(left), expr_view(right)),
    {
        let lc = const_of(&left);
        let rc = const_of(&right);
        match lc {
            Some(a) => match rc {
                Some(b) => {
                    return BoolExpr::Const(a != b);
                },
                None => {},
            },
            None => {},
        }
        if lc == Some(false) {
            return right;
        }
        if rc == Some(false) {
            return left;
        }
        if lc == Some(true) {
            return BoolExpr::Xor(Box::new(BoolExpr::Const(true)), Box::new(right));
        }
        if rc == Some(true) {
            return BoolExpr::Xor(Box::new(BoolExpr::Const(true)), Box::new(left));
        }
        if expr_eq(&left, &right) {
            return BoolExpr::Const(false);
        }
        BoolExpr::Xor(Box::new(left), Box::new(right))
    }

    pub fn xnor(left: BoolExpr, right: BoolExpr) -> (r: Self)
        ensures
            expr_view(r) == xnor_expr(expr_view(left), expr_view(right)),
    {
        let lc = const_of(&left);
        let rc = const_of(&right);
        match lc {
            Some(a) => match rc {
                Some(b) => {
                    return BoolExpr::Const(a == b);
                },
                None => {},
            },
            None => {},
        }
        if expr_eq(&left, &right) {
            return BoolExpr::Const(true);
        }
        BoolExpr::Xnor(Box::new(left), Box::new(right))
    }

    /// The cofactor with respect to `variable` set to `value`.
    pub fn cofactor(&self, variable: SimpNodeId, value: bool) -> (r: Self)
        ensures
            expr_view(r) == cofactor_expr(expr_view(*self), variable.0, value),
        decreases self,
    {
        match self {
            BoolExpr::Const(v) => BoolExpr::Const(*v),
            BoolExpr::Literal { node, positive } => {
                if node.0 == variable.0 {
                    BoolExpr::Const(if *positive { value } else { !value })
                } else {
                    BoolExpr::Literal { node: *node, positive: *positive }
                }
            },
            BoolExpr::NodeFunction(node) => BoolExpr::NodeFunction(*node),
            BoolExpr::And(terms) => cofactor_terms(terms, true, variable, value),
            BoolExpr::Or(terms) => cofactor_terms(terms, false, variable, value),
            BoolExpr::Xor(l, r) => BoolExpr::xor(l.cofactor(variable, value), r.cofactor(variable, value)),
            BoolExpr::Xnor(l, r) => BoolExpr::xnor(l.cofactor(variable, value), r.cofactor(variable, value)),
        }
    }
}


/// The conjunction (or disjunction) of the cofactors of the terms.
fn cofactor_terms(terms: &Vec<BoolExpr>, conj: bool, variable: SimpNodeId, value: bool) -> (r: BoolExpr)
    ensures
        expr_view(r) == (if conj {
            fold_and(exprs_view(terms@), variable.0, value)
        } else {
            fold_or(exprs_view(terms@), variable.0, value)
        }),
    decreases terms,
{
    let ghost tv = exprs_view(terms@);
    proof {
        lemma_exprs_view(terms@);
    }
    let mut acc = if conj { BoolExpr::one() } else { BoolExpr::zero() };
    for i in 0..terms.len()
        invariant
            tv == exprs_view(terms@),
            tv.len() == terms@.len(),
            forall|j: int| 0 <= j < terms@.len() ==> #[trigger] tv[j] == expr_view(terms@[j]),
            expr_view(acc) == (if conj {
                fold_and(tv.take(i as int), variable.0, value)
            } else {
                fold_or(tv.take(i as int), variable.0, value)
            }),
    {
        let c = terms[i].cofactor(variable, value);
        assert(tv.take(i + 1).drop_last() =~= tv.take(i as int));
        assert(tv.take(i + 1).last() == tv[i as int]);
        if conj {
            acc = BoolExpr::and(acc, c);
        } else {
            acc = BoolExpr::or(acc, c);
        }
    }
    assert(tv.take(terms@.len() as int) =~= tv);
    acc
}


/// The discrepancy of node `n`: its function against its literal.
pub open spec fn di_expr(n: usize) -> Expr {
    Expr::Xor(Box::new(Expr::Func(n)), Box::new(Expr::Lit(n, true)))
}

#[derive(Debug, Eq, PartialEq)]
pub struct SimpNode {
    pub name: String,
    pub kind: SimpNodeKind,
    pub fanins: Vec<SimpNodeId>,
    pub fanouts: Vec<SimpNodeId>,
    pub function: BoolExpr,
    pub cube_count: usize,
    pub literal_count: usize,
    pub level: Option<i32>,
}

impl SimpNode {
    /// A node with no edges, one cube, one literal and no level.
    pub fn new(name: &str, kind: SimpNodeKind, function: BoolExpr) -> (r: Self)
        ensures
            r.name@ == name@,
            r.kind == kind,
            r.fanins@ == Seq::<SimpNodeId>::empty(),
            r.fanouts@ == Seq::<SimpNodeId>::empty(),
            r.function == function,
            r.cube_count == 1,
            r.literal_count == 1,
            r.level is None,
    {
        SimpNode {
            name: name.to_owned(),
            kind,
            fanins: Vec::new(),
            fanouts: Vec::new(),
            function,
            cube_count: 1,
            literal_count: 1,
            level: None,
        }
    }

    pub fn with_cost(self, cube_count: usize, literal_count: usize) -> (r: Self)
        ensures
            r == (SimpNode { cube_count, literal_count, ..self }),
    {
        SimpNode { cube_count, literal_count, ..self }
    }

    pub fn with_level(self, level: i32) -> (r: Self)
        ensures
            r == (SimpNode { level: Some(level), ..self }),
    {
        SimpNode { level: Some(level), ..self }
    }
}

#[derive(Debug, Eq, PartialEq)]
pub struct SimpNetwork {
    nodes: Vec<SimpNode>,
}

impl View for SimpNetwork {
    type V = Seq<SimpNode>;

    closed spec fn view(&self) -> Seq<SimpNode> {
        self.nodes@
    }
}

/// `ids` with `x` added at the end unless present.
pub open spec fn add_id(ids: Seq<SimpNodeId>, x: SimpNodeId) -> Seq<SimpNodeId> {
    if ids.contains(x) { ids } else { ids.push(x) }
}

fn contains_id(v: &Vec<SimpNodeId>, x: SimpNodeId) -> (r: bool)
    ensures
        r == v@.contains(x),
{
    for k in 0..v.len()
        invariant
            forall|i: int| 0 <= i < k ==> v@[i] != x,
    {
        if v[k].0 == x.0 {
            return true;
        }
    }
    false
}

impl Default for SimpNetwork {
    fn default() -> (r: Self)
        ensures
            r@ == Seq::<SimpNode>::empty(),
    {
        SimpNetwork { nodes: Vec::new() }
    }
}

impl SimpNetwork {
    pub fn new() -> (r: Self)
        ensures
            r@ == Seq::<SimpNode>::empty(),
    {
        SimpNetwork { nodes: Vec::new() }
    }

    /// Adds a node; its id is its position.
    pub fn add_node(&mut self, node: SimpNode) -> (id: SimpNodeId)
        ensures
            id.0 == old(self)@.len(),
            final(self)@ == old(self)@.push(node),
    {
        let id = SimpNodeId(self.nodes.len());
        self.nodes.push(node);
        id
    }

    /// Adds the edge from `fanin` to `fanout`, each end listing the other
    /// once.
    pub fn connect(&mut self, fanin: SimpNodeId, fanout: SimpNodeId) -> (r: Result<(), SimpDcError>)
        ensures
            fanin.0 >= old(self)@.len() ==> r == Err::<(), SimpDcError>(SimpDcError::UnknownNode(fanin)) && final(self)@ == old(self)@,
            fanin.0 < old(self)@.len() && fanout.0 >= old(self)@.len() ==> r == Err::<(), SimpDcError>(SimpDcError::UnknownNode(fanout))
                && final(self)@ == old(self)@,
            fanin.0 < old(self)@.len() && fanout.0 < old(self)@.len() ==> r is Ok && final(self)@.len() == old(self)@.len()
                && forall|i: int| 0 <= i < old(self)@.len() ==> {
                    &&& (#[trigger] final(self)@[i]).name == old(self)@[i].name
                    &&& final(self)@[i].kind == old(self)@[i].kind
                    &&& final(self)@[i].function == old(self)@[i].function
                    &&& final(self)@[i].cube_count == old(self)@[i].cube_count
                    &&& final(self)@[i].literal_count == old(self)@[i].literal_count
                    &&& final(self)@[i].level == old(self)@[i].level
                    &&& final(self)@[i].fanins@ == (if i == fanout.0 { add_id(old(self)@[i].fanins@, fanin) } else { old(self)@[i].fanins@ })
                    &&& final(self)@[i].fanouts@ == (if i == fanin.0 { add_id(old(self)@[i].fanouts@, fanout) } else { old(self)@[i].fanouts@ })
                },
    {
        if fanin.0 >= self.nodes.len() {
            return Err(SimpDcError::UnknownNode(fanin));
        }
        if fanout.0 >= self.nodes.len() {
            return Err(SimpDcError::UnknownNode(fanout));
        }
        let ghost before = self.nodes@;
        if !contains_id(&self.nodes[fanout.0].fanins, fanin) {
            let mut node = self.nodes.remove(fanout.0);
            node.fanins.push(fanin);
            self.nodes.insert(fanout.0, node);
        }
        let ghost mid = self.nodes@;
        assert forall|i: int| 0 <= i < before.len() implies (#[trigger] mid[i]).fanouts == before[i].fanouts
            && mid[i].name == before[i].name && mid[i].kind == before[i].kind && mid[i].function == before[i].function
            && mid[i].cube_count == before[i].cube_count && mid[i].literal_count == before[i].literal_count
            && mid[i].level == before[i].level
            && mid[i].fanins@ == (if i == fanout.0 { add_id(before[i].fanins@, fanin) } else { before[i].fanins@ }) by {
        }
        if !contains_id(&self.nodes[fanin.0].fanouts, fanout) {
            let mut node = self.nodes.remove(fanin.0);
            node.fanouts.push(fanout);
            self.nodes.insert(fanin.0, node);
        }
        Ok(())
    }

    /// The node with id `id`.
    pub fn node(&self, id: SimpNodeId) -> (r: Result<&SimpNode, SimpDcError>)
        ensures
            id.0 < self@.len() ==> r == Ok::<&SimpNode, SimpDcError>(&self@[id.0 as int]),
            id.0 >= self@.len() ==> r == Err::<&SimpNode, SimpDcError>(SimpDcError::UnknownNode(id)),
    {
        if id.0 < self.nodes.len() {
            Ok(&self.nodes[id.0])
        } else {
            Err(SimpDcError::UnknownNode(id))
        }
    }

    /// The node with id `id`, to change in place.
    pub fn node_mut(&mut self, id: SimpNodeId) -> (r: Result<&mut SimpNode, SimpDcError>)
        ensures
            id.0 >= old(self)@.len() ==> r == Err::<&mut SimpNode, SimpDcError>(SimpDcError::UnknownNode(id))
                && final(self)@ == old(self)@,
            id.0 < old(self)@.len() ==> (r matches Ok(m) && *m == old(self)@[id.0 as int]
                && final(self)@ == old(self)@.update(id.0 as int, *final(m))),
    {
        if id.0 < self.nodes.len() {
            Ok(&mut self.nodes[id.0])
        } else {
            Err(SimpDcError::UnknownNode(id))
        }
    }

    pub fn nodes(&self) -> (r: &[SimpNode])
        ensures
            r@ == self@,
    {
        self.nodes.as_slice()
    }
}

#[derive(Clone, Copy, Debug, Eq, PartialEq, Structural)]
pub struct NodeFanout {
    pub node: SimpNodeId,
    pub fanout: SimpNodeId,
}

#[derive(Clone, Debug, Eq, PartialEq)]
pub enum SimpDcError {
    UnknownNode(SimpNodeId),
    MissingLevel(SimpNodeId),
    MissingNativeSupport { operation: &'static str },
}

pub open spec fn node_id_text(id: SimpNodeId) -> Seq<char> {
    "SimpNodeId("@ + decimal(id.0 as nat) + ")"@
}

/// The message of an error.
pub open spec fn error_text(e: SimpDcError) -> Seq<char> {
    match e {
        SimpDcError::UnknownNode(n) => "unknown simplify node "@ + node_id_text(n),
        SimpDcError::MissingLevel(n) => "missing simplify level for "@ + node_id_text(n),
        SimpDcError::MissingNativeSupport { operation } => operation@ + " requires native network support"@,
    }
}

fn push_node_id(s: &mut String, id: SimpNodeId)
    ensures
        final(s)@ == old(s)@ + node_id_text(id),
{
    push_str(s, "SimpNodeId(");
    push_decimal(s, id.0 as u64);
    push_str(s, ")");
    assert(final(s)@ =~= old(s)@ + node_id_text(id));
}

impl SimpDcError {
    /// The message describing the error.
    pub fn message(&self) -> (r: String)
        ensures
            r@ == error_text(*self),
    {
        let mut s = String::new();
        match self {
            SimpDcError::UnknownNode(n) => {
                push_str(&mut s, "unknown simplify node ");
                push_node_id(&mut s, *n);
            },
            SimpDcError::MissingLevel(n) => {
                push_str(&mut s, "missing simplify level for ");
                push_node_id(&mut s, *n);
            },
            SimpDcError::MissingNativeSupport { operation } => {
                push_str(&mut s, operation);
                push_str(&mut s, " requires native network support");
            },
        }
        assert(s@ =~= error_text(*self));
        s
    }
}

/// The bound don't-care set of a network node needs the native network,
/// which this library does not have: always the missing-support error.
pub fn sis_node_bound_dont_care(operation: &'static str) -> (r: Result<BoolExpr, SimpDcError>)
    ensures
        r == Err::<BoolExpr, SimpDcError>(SimpDcError::MissingNativeSupport { operation }),
{
    Err(SimpDcError::MissingNativeSupport { operation })
}

/// The discrepancy of `node`: its function xor its positive literal.
pub fn simp_di(node: SimpNodeId) -> (r: BoolExpr)
    ensures
        expr_view(r) == di_expr(node.0),
{
    BoolExpr::xor(BoolExpr::node_function(node), BoolExpr::positive_literal(node))
}


/// The (fanin, node) entries of node `id`, one per fanin in order.
pub open spec fn fanout_entries(nodes: Seq<SimpNode>, id: SimpNodeId) -> Seq<NodeFanout> {
    Seq::new(nodes[id.0 as int].fanins@.len(), |i: int| NodeFanout { node: nodes[id.0 as int].fanins@[i], fanout: id })
}

/// The first of the first `k` ids that names no node.
pub open spec fn first_unknown(nodes: Seq<SimpNode>, ids: Seq<SimpNodeId>, k: nat) -> Option<SimpNodeId>
    decreases k,
{
    if k == 0 {
        None
    } else {
        match first_unknown(nodes, ids, (k - 1) as nat) {
            Some(x) => Some(x),
            None => if ids[k - 1].0 >= nodes.len() { Some(ids[k - 1]) } else { None },
        }
    }
}

proof fn lemma_first_unknown_stays(nodes: Seq<SimpNode>, ids: Seq<SimpNodeId>, k: nat, m: nat)
    requires
        k <= m,
        first_unknown(nodes, ids, k) is Some,
    ensures
        first_unknown(nodes, ids, m) == first_unknown(nodes, ids, k),
    decreases m - k,
{
    if k < m {
        lemma_first_unknown_stays(nodes, ids, k, (m - 1) as nat);
    }
}

/// The entries of the first `k` of the ids, in order.
pub open spec fn fanin_entries(nodes: Seq<SimpNode>, ids: Seq<SimpNodeId>, k: nat) -> Seq<NodeFanout>
    decreases k,
{
    if k == 0 {
        seq![]
    } else {
        fanin_entries(nodes, ids, (k - 1) as nat) + fanout_entries(nodes, ids[k - 1])
    }
}

/// Another entry of the list has the same fanin as entry `i`.
pub open spec fn has_partner(list: Seq<NodeFanout>, i: int) -> bool {
    exists|j: int| 0 <= j < list.len() && j != i && list[j].node == list[i].node
}

/// The fanouts of the first `k` entries that have a partner.
pub open spec fn partnered_fanouts(list: Seq<NodeFanout>, k: nat) -> Seq<usize>
    decreases k,
{
    if k == 0 {
        seq![]
    } else {
        partnered_fanouts(list, (k - 1) as nat) + (if has_partner(list, k - 1) { seq![list[k - 1].fanout.0] } else { seq![] })
    }
}

pub open spec fn ids_of(v: Seq<usize>) -> Seq<SimpNodeId> {
    Seq::new(v.len(), |i: int| SimpNodeId(v[i]))
}

/// The entries of a node and of its fanins.
pub open spec fn shared_list(nodes: Seq<SimpNode>, node: SimpNodeId) -> Seq<NodeFanout> {
    let fanins = nodes[node.0 as int].fanins@;
    fanout_entries(nodes, node) + fanin_entries(nodes, fanins, fanins.len())
}

/// The nodes that share a fanin with another of the node's entries or its
/// fanins' entries, in increasing order.
pub open spec fn shared_result(nodes: Seq<SimpNode>, node: SimpNodeId) -> Result<Seq<SimpNodeId>, SimpDcError> {
    if node.0 >= nodes.len() {
        Err(SimpDcError::UnknownNode(node))
    } else {
        let fanins = nodes[node.0 as int].fanins@;
        match first_unknown(nodes, fanins, fanins.len()) {
            Some(f) => Err(SimpDcError::UnknownNode(f)),
            None => {
                let list = shared_list(nodes, node);
                Ok(ids_of(sorted_of(partnered_fanouts(list, list.len()))))
            },
        }
    }
}

/// The entries of `node`: each fanin with the node as its fanout.
pub fn simp_nodefanout_vec(network: &SimpNetwork, node: SimpNodeId) -> (r: Result<Vec<NodeFanout>, SimpDcError>)
    ensures
        node.0 >= network@.len() ==> r == Err::<Vec<NodeFanout>, SimpDcError>(SimpDcError::UnknownNode(node)),
        node.0 < network@.len() ==> (r matches Ok(v) && v@ == fanout_entries(network@, node)),
{
    let n = match network.node(node) {
        Err(e) => {
            return Err(e);
        },
        Ok(n) => n,
    };
    let mut out: Vec<NodeFanout> = Vec::new();
    for i in 0..n.fanins.len()
        invariant
            node.0 < network@.len(),
            *n == network@[node.0 as int],
            out@.len() == i,
            forall|j: int| 0 <= j < i ==> #[trigger] out@[j] == fanout_entries(network@, node)[j],
    {
        out.push(NodeFanout { node: n.fanins[i], fanout: node });
    }
    assert(out@ =~= fanout_entries(network@, node));
    Ok(out)
}

fn ids_from(v: Vec<usize>) -> (r: Vec<SimpNodeId>)
    ensures
        r@ == ids_of(v@),
{
    let mut out: Vec<SimpNodeId> = Vec::new();
    for i in 0..v.len()
        invariant
            out@.len() == i,
            forall|j: int| 0 <= j < i ==> #[trigger] out@[j] == SimpNodeId(v@[j]),
    {
        out.push(SimpNodeId(v[i]));
    }
    assert(out@ =~= ids_of(v@));
    out
}

/// The nodes sharing a fanin, as the table of the original: the node's
/// entries and those of its fanins, and of them the fanouts of the entries
/// whose fanin occurs in another entry; sorted, each once.
pub fn shared_fanin_fanouts(network: &SimpNetwork, node: SimpNodeId) -> (r: Result<Vec<SimpNodeId>, SimpDcError>)
    ensures
        match shared_result(network@, node) {
            Ok(v) => r matches Ok(x) && x@ == v,
            Err(e) => r == Err::<Vec<SimpNodeId>, SimpDcError>(e),
        },
{
    let mut list = match simp_nodefanout_vec(network, node) {
        Err(e) => {
            return Err(e);
        },
        Ok(v) => v,
    };
    let target = match network.node(node) {
        Err(e) => {
            return Err(e);
        },
        Ok(t) => t,
    };
    let ghost nodes = network@;
    let ghost fanins = nodes[node.0 as int].fanins@;
    for k in 0..target.fanins.len()
        invariant
            nodes == network@,
            node.0 < nodes.len(),
            *target == nodes[node.0 as int],
            fanins == target.fanins@,
            first_unknown(nodes, fanins, k as nat) is None,
            list@ == fanout_entries(nodes, node) + fanin_entries(nodes, fanins, k as nat),
    {
        let f = target.fanins[k];
        let more = match simp_nodefanout_vec(network, f) {
            Err(e) => {
                proof {
                    lemma_first_unknown_stays(nodes, fanins, (k + 1) as nat, fanins.len());
                }
                return Err(e);
            },
            Ok(v) => v,
        };
        let ghost before = list@;
        let mut more = more;
        list.append(&mut more);
        assert(list@ =~= fanout_entries(nodes, node) + fanin_entries(nodes, fanins, (k + 1) as nat));
    }
    let ghost l = list@;
    let mut picked: Vec<usize> = Vec::new();
    for i in 0..list.len()
        invariant
            l == list@,
            picked@ == partnered_fanouts(l, i as nat),
    {
        let mut found = false;
        for j in 0..list.len()
            invariant
                l == list@,
                0 <= i < l.len(),
                found <==> exists|t: int| 0 <= t < j && t != i && l[t].node == l[i as int].node,
        {
            if j != i && list[j].node.0 == list[i].node.0 {
                found = true;
            }
        }
        if found {
            picked.push(list[i].fanout.0);
        }
        assert(picked@ =~= partnered_fanouts(l, (i + 1) as nat));
    }
    let sorted = sorted_set_of(picked.as_slice());
    Ok(ids_from(sorted))
}

/// The discrepancies of the listed nodes other than `skip`, joined by `or`.
pub open spec fn or_di_except(ids: Seq<SimpNodeId>, skip: SimpNodeId, k: nat) -> Expr
    decreases k,
{
    if k == 0 {
        Expr::Const(false)
    } else if ids[k - 1] != skip {
        or_expr(or_di_except(ids, skip, (k - 1) as nat), di_expr(ids[k - 1].0))
    } else {
        or_di_except(ids, skip, (k - 1) as nat)
    }
}

/// The don't-care set of the nodes that share fanins with `node`: the
/// discrepancies of those nodes, the node itself left out.
pub fn unused_simp_fanin_dc(network: &SimpNetwork, node: SimpNodeId) -> (r: Result<BoolExpr, SimpDcError>)
    ensures
        match shared_result(network@, node) {
            Ok(v) => r matches Ok(x) && expr_view(x) == or_di_except(v, node, v.len()),
            Err(e) => r == Err::<BoolExpr, SimpDcError>(e),
        },
{
    let shared = match shared_fanin_fanouts(network, node) {
        Err(e) => {
            return Err(e);
        },
        Ok(v) => v,
    };
    let mut dc = BoolExpr::zero();
    for k in 0..shared.len()
        invariant
            expr_view(dc) == or_di_except(shared@, node, k as nat),
    {
        let useful = shared[k];
        if useful.0 != node.0 {
            dc = BoolExpr::or(dc, simp_di(useful));
        }
    }
    Ok(dc)
}


/// The fanout don't-care computation after the first `k` fanouts.
pub enum FanoutDcState {
    Running(Expr),
    Done(Expr),
    Failed(SimpDcError),
}

pub open spec fn fanout_dc_run(nodes: Seq<SimpNode>, node: SimpNodeId, k: nat) -> FanoutDcState
    decreases k,
{
    if k == 0 {
        FanoutDcState::Running(Expr::Const(true))
    } else {
        match fanout_dc_run(nodes, node, (k - 1) as nat) {
            FanoutDcState::Running(dc) => {
                let f = nodes[node.0 as int].fanouts@[k - 1];
                if f.0 >= nodes.len() {
                    FanoutDcState::Failed(SimpDcError::UnknownNode(f))
                } else if nodes[f.0 as int].kind == SimpNodeKind::PrimaryOutput {
                    FanoutDcState::Done(Expr::Const(false))
                } else {
                    let fe = expr_view(nodes[f.0 as int].function);
                    let d = and_expr(dc, xnor_expr(cofactor_expr(fe, node.0, true), cofactor_expr(fe, node.0, false)));
                    if d == Expr::Const(false) { FanoutDcState::Done(d) } else { FanoutDcState::Running(d) }
                }
            },
            other => other,
        }
    }
}

/// The fanout don't-care set of a node: false when it feeds a primary
/// output; else the conjunction, over its fanouts, of the equivalence of the
/// fanout's two cofactors with respect to the node, stopping once false.
pub open spec fn fanout_dc_result(nodes: Seq<SimpNode>, node: SimpNodeId) -> Result<Expr, SimpDcError> {
    if node.0 >= nodes.len() {
        Err(SimpDcError::UnknownNode(node))
    } else {
        match fanout_dc_run(nodes, node, nodes[node.0 as int].fanouts@.len()) {
            FanoutDcState::Running(d) => Ok(d),
            FanoutDcState::Done(d) => Ok(d),
            FanoutDcState::Failed(e) => Err(e),
        }
    }
}

proof fn lemma_fanout_dc_stays(nodes: Seq<SimpNode>, node: SimpNodeId, k: nat, m: nat)
    requires
        k <= m,
        !(fanout_dc_run(nodes, node, k) is Running),
    ensures
        fanout_dc_run(nodes, node, m) == fanout_dc_run(nodes, node, k),
    decreases m - k,
{
    if k < m {
        lemma_fanout_dc_stays(nodes, node, k, (m - 1) as nat);
    }
}

pub fn simp_fanout_dc(network: &SimpNetwork, node: SimpNodeId) -> (r: Result<BoolExpr, SimpDcError>)
    ensures
        match fanout_dc_result(network@, node) {
            Ok(d) => r matches Ok(x) && expr_view(x) == d,
            Err(e) => r == Err::<BoolExpr, SimpDcError>(e),
        },
{
    let target = match network.node(node) {
        Err(e) => {
            return Err(e);
        },
        Ok(t) => t,
    };
    let ghost nodes = network@;
    let ghost total = target.fanouts@.len();
    let mut dc = BoolExpr::one();
    for k in 0..target.fanouts.len()
        invariant
            nodes == network@,
            node.0 < nodes.len(),
            *target == nodes[node.0 as int],
            total == target.fanouts@.len(),
            fanout_dc_run(nodes, node, k as nat) == FanoutDcState::Running(expr_view(dc)),
    {
        let fanout = target.fanouts[k];
        let fanout_node = match network.node(fanout) {
            Err(e) => {
                proof {
                    lemma_fanout_dc_stays(nodes, node, (k + 1) as nat, total);
                }
                return Err(e);
            },
            Ok(f) => f,
        };
        if fanout_node.kind == SimpNodeKind::PrimaryOutput {
            proof {
                lemma_fanout_dc_stays(nodes, node, (k + 1) as nat, total);
            }
            return Ok(BoolExpr::zero());
        }
        let positive = fanout_node.function.cofactor(node, true);
        let negative = fanout_node.function.cofactor(node, false);
        dc = BoolExpr::and(dc, BoolExpr::xnor(positive, negative));
        if const_of(&dc) == Some(false) {
            proof {
                lemma_fanout_dc_stays(nodes, node, (k + 1) as nat, total);
            }
            return Ok(dc);
        }
    }
    Ok(dc)
}

/// A breadth-first cone walk: the queue of (node, depth) still to expand,
/// the nodes reached, in the order reached, and the unknown node met.
pub struct ConeState {
    pub queue: Seq<(usize, usize)>,
    pub marks: Seq<bool>,
    pub ordered: Seq<usize>,
    pub failed: Option<SimpNodeId>,
}

pub open spec fn neighbors_of(nodes: Seq<SimpNode>, id: usize, fanin: bool) -> Seq<SimpNodeId> {
    if fanin { nodes[id as int].fanins@ } else { nodes[id as int].fanouts@ }
}

/// Visiting the first `k` neighbors of a node at depth `d`: each new one is
/// reached, and queued at depth `d + 1`.
pub open spec fn visit_neighbors(nodes: Seq<SimpNode>, st: ConeState, nbs: Seq<SimpNodeId>, d: usize, k: nat) -> ConeState
    decreases k,
{
    if k == 0 {
        st
    } else {
        let s = visit_neighbors(nodes, st, nbs, d, (k - 1) as nat);
        let nb = nbs[k - 1];
        if s.failed is Some {
            s
        } else if nb.0 >= nodes.len() {
            ConeState { failed: Some(nb), ..s }
        } else if s.marks[nb.0 as int] {
            s
        } else {
            ConeState {
                queue: s.queue.push((nb.0, (d + 1) as usize)),
                marks: s.marks.update(nb.0 as int, true),
                ordered: s.ordered.push(nb.0),
                failed: None,
            }
        }
    }
}

/// One step of the walk: the head of the queue is expanded unless it is at
/// the depth limit.
pub open spec fn cone_step(nodes: Seq<SimpNode>, st: ConeState, limit: usize, fanin: bool) -> ConeState {
    if st.failed is Some || st.queue.len() == 0 {
        st
    } else {
        let cur = st.queue[0].0;
        let d = st.queue[0].1;
        let rest = ConeState { queue: st.queue.drop_first(), ..st };
        if d == limit {
            rest
        } else if cur >= nodes.len() {
            ConeState { failed: Some(SimpNodeId(cur)), ..rest }
        } else {
            let nbs = neighbors_of(nodes, cur, fanin);
            visit_neighbors(nodes, rest, nbs, d, nbs.len())
        }
    }
}

pub open spec fn cone_run(nodes: Seq<SimpNode>, st: ConeState, limit: usize, fanin: bool, k: nat) -> ConeState
    decreases k,
{
    if k == 0 {
        st
    } else {
        cone_step(nodes, cone_run(nodes, st, limit, fanin, (k - 1) as nat), limit, fanin)
    }
}

/// The nodes within `limit` steps of `node` over fanins (or fanouts), in
/// breadth-first order, each once; the node itself only when a cycle leads
/// back to it.
pub open spec fn cone_result(nodes: Seq<SimpNode>, node: SimpNodeId, limit: usize, fanin: bool) -> Result<Seq<SimpNodeId>, SimpDcError> {
    if node.0 >= nodes.len() {
        Err(SimpDcError::UnknownNode(node))
    } else if limit == 0 {
        Ok(seq![])
    } else {
        let fin = cone_run(nodes, cone_init(nodes, node), limit, fanin, (nodes.len() + 1) as nat);
        match fin.failed {
            Some(f) => Err(SimpDcError::UnknownNode(f)),
            None => Ok(ids_of(fin.ordered)),
        }
    }
}

/// The walk's start: the node queued at depth 0, nothing reached.
pub open spec fn cone_init(nodes: Seq<SimpNode>, node: SimpNodeId) -> ConeState {
    ConeState {
        queue: seq![(node.0, 0usize)],
        marks: Seq::new(nodes.len(), |i: int| false),
        ordered: seq![],
        failed: None,
    }
}

/// Number of marked entries.
pub open spec fn count_true(m: Seq<bool>) -> nat
    decreases m.len(),
{
    if m.len() == 0 {
        0
    } else {
        count_true(m.drop_last()) + (if m.last() { 1nat } else { 0nat })
    }
}

proof fn lemma_count_true_le(m: Seq<bool>)
    ensures
        count_true(m) <= m.len(),
    decreases m.len(),
{
    if m.len() > 0 {
        lemma_count_true_le(m.drop_last());
    }
}

proof fn lemma_count_true_mark(m: Seq<bool>, i: int)
    requires
        0 <= i < m.len(),
        !m[i],
    ensures
        count_true(m.update(i, true)) == count_true(m) + 1,
    decreases m.len(),
{
    let u = m.update(i, true);
    if i == m.len() - 1 {
        assert(u.drop_last() =~= m.drop_last());
    } else {
        lemma_count_true_mark(m.drop_last(), i);
        assert(u.drop_last() =~= m.drop_last().update(i, true));
    }
}

proof fn lemma_cone_stays(nodes: Seq<SimpNode>, st: ConeState, limit: usize, fanin: bool, k: nat, m: nat)
    requires
        k <= m,
        cone_run(nodes, st, limit, fanin, k).failed is Some || cone_run(nodes, st, limit, fanin, k).queue.len() == 0,
    ensures
        cone_run(nodes, st, limit, fanin, m) == cone_run(nodes, st, limit, fanin, k),
    decreases m - k,
{
    if k < m {
        lemma_cone_stays(nodes, st, limit, fanin, k, (m - 1) as nat);
    }
}

fn walk_cone(network: &SimpNetwork, node: SimpNodeId, limit: usize, fanin: bool) -> (r: Result<Vec<SimpNodeId>, SimpDcError>)
    ensures
        match cone_result(network@, node, limit, fanin) {
            Ok(v) => r matches Ok(x) && x@ == v,
            Err(e) => r == Err::<Vec<SimpNodeId>, SimpDcError>(e),
        },
{
    match network.node(node) {
        Err(e) => {
            return Err(e);
        },
        Ok(_) => {},
    }
    if limit == 0 {
        return Ok(Vec::new());
    }
    let ghost nodes = network@;
    let n = network.nodes().len();
    let mut marks: Vec<bool> = Vec::new();
    for i in 0..n
        invariant
            marks@.len() == i,
            forall|j: int| 0 <= j < i ==> !(#[trigger] marks@[j]),
    {
        marks.push(false);
    }
    let ghost init = cone_init(nodes, node);
    assert(marks@ =~= init.marks);
    let mut queue: Vec<(usize, usize)> = Vec::new();
    queue.push((node.0, 0));
    let mut ordered: Vec<usize> = Vec::new();
    let mut qi: usize = 0;
    proof {
        assert(queue@.skip(0) =~= init.queue);
        assert(count_true(marks@) == 0) by {
            assert forall|k: nat| k <= marks@.len() implies count_true(marks@.take(k as int)) == 0 by {
                lemma_count_zero(marks@, k);
            }
            assert(marks@.take(marks@.len() as int) =~= marks@);
        }
    }
    while qi < queue.len()
        invariant
            nodes == network@,
            n == nodes.len(),
            node.0 < n,
            init == cone_init(nodes, node),
            limit > 0,
            qi <= queue@.len(),
            marks@.len() == n,
            queue@.len() == 1 + ordered@.len(),
            ordered@.len() == count_true(marks@),
            forall|i: int| 0 <= i < queue@.len() ==> (#[trigger] queue@[i]).1 <= limit,
            cone_run(nodes, init, limit, fanin, qi as nat) == (ConeState {
                queue: queue@.skip(qi as int),
                marks: marks@,
                ordered: ordered@,
                failed: None,
            }),
        decreases (queue@.len() - qi) + 2 * (n - ordered@.len()),
    {
        proof {
            lemma_count_true_le(marks@);
        }
        let (cur, d) = queue[qi];
        assert(queue@[qi as int].1 <= limit);
        let ghost st = cone_run(nodes, init, limit, fanin, qi as nat);
        assert(st.queue[0] == (cur, d));
        let ghost rest = ConeState { queue: st.queue.drop_first(), ..st };
        assert(queue@.skip(qi + 1) =~= st.queue.drop_first());
        qi = qi + 1;
        assert(cone_run(nodes, init, limit, fanin, qi as nat) == cone_step(nodes, st, limit, fanin));
        if d == limit {
            assert(cone_run(nodes, init, limit, fanin, qi as nat) == rest);
            continue;
        }
        let current = match network.node(SimpNodeId(cur)) {
            Err(e) => {
                proof {
                    lemma_count_true_le(marks@);
                    lemma_cone_stays(nodes, init, limit, fanin, qi as nat, (nodes.len() + 1) as nat);
                }
                return Err(e);
            },
            Ok(c) => c,
        };
        let nbs = if fanin { &current.fanins } else { &current.fanouts };
        let ghost nbv = nbs@;
        assert(nbv == neighbors_of(nodes, cur, fanin));
        let ghost after = visit_neighbors(nodes, rest, nbv, d, nbv.len());
        let ghost o0 = ordered@.len();
        assert(cone_run(nodes, init, limit, fanin, qi as nat) == after);
        for j in 0..nbs.len()
            invariant
                nodes == network@,
                n == nodes.len(),
                node.0 < n,
                init == cone_init(nodes, node),
                ordered@.len() >= o0,
                nbv == nbs@,
                d < limit,
                qi >= 1,
                qi <= queue@.len(),
                forall|i: int| 0 <= i < queue@.len() ==> (#[trigger] queue@[i]).1 <= limit,
                after == visit_neighbors(nodes, rest, nbv, d, nbv.len()),
                cone_run(nodes, init, limit, fanin, qi as nat) == after,
                marks@.len() == n,
                queue@.len() == 1 + ordered@.len(),
                ordered@.len() == count_true(marks@),
                visit_neighbors(nodes, rest, nbv, d, j as nat) == (ConeState {
                    queue: queue@.skip(qi as int),
                    marks: marks@,
                    ordered: ordered@,
                    failed: None,
                }),
        {
            let nb = nbs[j];
            if nb.0 >= n {
                proof {
                    let v1 = visit_neighbors(nodes, rest, nbv, d, (j + 1) as nat);
                    assert(nbv[j as int] == nb);
                    assert(v1.failed == Some(nb));
                    lemma_visit_failed(nodes, rest, nbv, d, (j + 1) as nat, nbv.len());
                    lemma_count_true_le(marks@);
                    assert(cone_run(nodes, init, limit, fanin, qi as nat).failed == Some(nb));
                    lemma_cone_stays(nodes, init, limit, fanin, qi as nat, (nodes.len() + 1) as nat);
                }
                return Err(SimpDcError::UnknownNode(nb));
            }
            if !marks[nb.0] {
                proof {
                    lemma_count_true_mark(marks@, nb.0 as int);
                }
                marks.set(nb.0, true);
                let ghost qb = queue@;
                queue.push((nb.0, d + 1));
                ordered.push(nb.0);
                assert(queue@.skip(qi as int) =~= qb.skip(qi as int).push((nb.0, (d + 1) as usize)));
            }
        }
        proof {
            lemma_count_true_le(marks@);
        }
    }
    proof {
        assert(queue@.skip(qi as int) =~= Seq::<(usize, usize)>::empty());
        lemma_count_true_le(marks@);
        lemma_cone_stays(nodes, init, limit, fanin, qi as nat, (nodes.len() + 1) as nat);
    }
    Ok(ids_from(ordered))
}

proof fn lemma_count_zero(m: Seq<bool>, k: nat)
    requires
        k <= m.len(),
        forall|j: int| 0 <= j < m.len() ==> !m[j],
    ensures
        count_true(m.take(k as int)) == 0,
    decreases k,
{
    if k > 0 {
        lemma_count_zero(m, (k - 1) as nat);
        assert(m.take(k as int).drop_last() =~= m.take(k - 1));
    }
}

proof fn lemma_visit_failed(nodes: Seq<SimpNode>, st: ConeState, nbs: Seq<SimpNodeId>, d: usize, k: nat, m: nat)
    requires
        k <= m,
        visit_neighbors(nodes, st, nbs, d, k).failed is Some,
    ensures
        visit_neighbors(nodes, st, nbs, d, m) == visit_neighbors(nodes, st, nbs, d, k),
    decreases m - k,
{
    if k < m {
        lemma_visit_failed(nodes, st, nbs, d, k, (m - 1) as nat);
    }
}

/// The transitive fanin of a node within `limit` levels.
pub fn transitive_fanin(network: &SimpNetwork, node: SimpNodeId, limit: usize) -> (r: Result<Vec<SimpNodeId>, SimpDcError>)
    ensures
        match cone_result(network@, node, limit, true) {
            Ok(v) => r matches Ok(x) && x@ == v,
            Err(e) => r == Err::<Vec<SimpNodeId>, SimpDcError>(e),
        },
{
    walk_cone(network, node, limit, true)
}

/// The transitive fanout of a node within `limit` levels.
pub fn transitive_fanout(network: &SimpNetwork, node: SimpNodeId, limit: usize) -> (r: Result<Vec<SimpNodeId>, SimpDcError>)
    ensures
        match cone_result(network@, node, limit, false) {
            Ok(v) => r matches Ok(x) && x@ == v,
            Err(e) => r == Err::<Vec<SimpNodeId>, SimpDcError>(e),
        },
{
    walk_cone(network, node, limit, false)
}


/// The ids of the first `k` nodes of `nps` outside the fanout cone `fo` and
/// other than `node`.
pub open spec fn outside_cone(nps: Seq<SimpNodeId>, fo: Seq<SimpNodeId>, node: SimpNodeId, k: nat) -> Seq<usize>
    decreases k,
{
    if k == 0 {
        seq![]
    } else {
        outside_cone(nps, fo, node, (k - 1) as nat) + (if fo.contains(nps[k - 1]) || nps[k - 1] == node {
            seq![]
        } else {
            seq![nps[k - 1].0]
        })
    }
}

/// The don't-care candidates from the first `k` nodes of the transitive
/// fanin `fi`: each such node and the nodes of its fanout cone (within
/// `out_level`) outside the node's own fanout cone.
pub open spec fn tfanin_collect(
    nodes: Seq<SimpNode>,
    fo: Seq<SimpNodeId>,
    node: SimpNodeId,
    fi: Seq<SimpNodeId>,
    out_level: usize,
    k: nat,
) -> Result<Seq<usize>, SimpDcError>
    decreases k,
{
    if k == 0 {
        Ok(seq![])
    } else {
        match tfanin_collect(nodes, fo, node, fi, out_level, (k - 1) as nat) {
            Err(e) => Err(e),
            Ok(acc) => match cone_result(nodes, fi[k - 1], out_level, false) {
                Err(e) => Err(e),
                Ok(nps) => Ok(acc + seq![fi[k - 1].0] + outside_cone(nps, fo, node, nps.len())),
            },
        }
    }
}

/// The discrepancies of the internal nodes among the first `k` ids, joined
/// by `or`.
pub open spec fn or_internal_di(nodes: Seq<SimpNode>, ids: Seq<usize>, k: nat) -> Result<Expr, SimpDcError>
    decreases k,
{
    if k == 0 {
        Ok(Expr::Const(false))
    } else {
        match or_internal_di(nodes, ids, (k - 1) as nat) {
            Err(e) => Err(e),
            Ok(dc) => if ids[k - 1] >= nodes.len() {
                Err(SimpDcError::UnknownNode(SimpNodeId(ids[k - 1])))
            } else if nodes[ids[k - 1] as int].kind == SimpNodeKind::Internal {
                Ok(or_expr(dc, di_expr(ids[k - 1])))
            } else {
                Ok(dc)
            },
        }
    }
}

/// The transitive-fanin don't-care set of a node.
pub open spec fn tfanin_result(nodes: Seq<SimpNode>, node: SimpNodeId, in_level: usize, out_level: usize) -> Result<Expr, SimpDcError> {
    if node.0 >= nodes.len() {
        Err(SimpDcError::UnknownNode(node))
    } else {
        match cone_result(nodes, node, INFINITY_LEVEL, false) {
            Err(e) => Err(e),
            Ok(fo) => match cone_result(nodes, node, in_level, true) {
                Err(e) => Err(e),
                Ok(fi) => match tfanin_collect(nodes, fo, node, fi, out_level, fi.len()) {
                    Err(e) => Err(e),
                    Ok(c) => or_internal_di(nodes, sorted_of(c), sorted_of(c).len()),
                },
            },
        }
    }
}

proof fn lemma_tfanin_collect_err(
    nodes: Seq<SimpNode>,
    fo: Seq<SimpNodeId>,
    node: SimpNodeId,
    fi: Seq<SimpNodeId>,
    out_level: usize,
    k: nat,
    m: nat,
)
    requires
        k <= m,
        tfanin_collect(nodes, fo, node, fi, out_level, k) is Err,
    ensures
        tfanin_collect(nodes, fo, node, fi, out_level, m) == tfanin_collect(nodes, fo, node, fi, out_level, k),
    decreases m - k,
{
    if k < m {
        lemma_tfanin_collect_err(nodes, fo, node, fi, out_level, k, (m - 1) as nat);
    }
}

proof fn lemma_or_internal_err(nodes: Seq<SimpNode>, ids: Seq<usize>, k: nat, m: nat)
    requires
        k <= m,
        or_internal_di(nodes, ids, k) is Err,
    ensures
        or_internal_di(nodes, ids, m) == or_internal_di(nodes, ids, k),
    decreases m - k,
{
    if k < m {
        lemma_or_internal_err(nodes, ids, k, (m - 1) as nat);
    }
}

/// The transitive-fanin don't-care set: the discrepancies of the internal
/// nodes of the node's transitive fanin (within `input_level`) and of their
/// fanout cones (within `output_level`) that are outside the node's own
/// fanout cone.
pub fn simp_tfanin_dc(network: &SimpNetwork, node: SimpNodeId, input_level: usize, output_level: usize)
    -> (r: Result<BoolExpr, SimpDcError>)
    ensures
        match tfanin_result(network@, node, input_level, output_level) {
            Ok(d) => r matches Ok(x) && expr_view(x) == d,
            Err(e) => r == Err::<BoolExpr, SimpDcError>(e),
        },
{
    match network.node(node) {
        Err(e) => {
            return Err(e);
        },
        Ok(_) => {},
    }
    let ghost nodes = network@;
    let fanout_cone = match transitive_fanout(network, node, INFINITY_LEVEL) {
        Err(e) => {
            return Err(e);
        },
        Ok(v) => v,
    };
    let fanins = match transitive_fanin(network, node, input_level) {
        Err(e) => {
            return Err(e);
        },
        Ok(v) => v,
    };
    let ghost fo = fanout_cone@;
    let ghost fi = fanins@;
    let mut collected: Vec<usize> = Vec::new();
    for k in 0..fanins.len()
        invariant
            nodes == network@,
            fo == fanout_cone@,
            fi == fanins@,
            node.0 < nodes.len(),
            cone_result(nodes, node, INFINITY_LEVEL, false) == Ok::<Seq<SimpNodeId>, SimpDcError>(fo),
            cone_result(nodes, node, input_level, true) == Ok::<Seq<SimpNodeId>, SimpDcError>(fi),
            tfanin_collect(nodes, fo, node, fi, output_level, k as nat) == Ok::<Seq<usize>, SimpDcError>(collected@),
    {
        let fanin = fanins[k];
        let ghost acc = collected@;
        collected.push(fanin.0);
        assert(collected@ =~= acc + seq![fi[k as int].0]);
        let nps = match transitive_fanout(network, fanin, output_level) {
            Err(e) => {
                proof {
                    lemma_tfanin_collect_err(nodes, fo, node, fi, output_level, (k + 1) as nat, fi.len());
                }
                return Err(e);
            },
            Ok(v) => v,
        };
        let ghost base = collected@;
        for j in 0..nps.len()
            invariant
                fo == fanout_cone@,
                collected@ == base + outside_cone(nps@, fo, node, j as nat),
        {
            let np = nps[j];
            if !(contains_id(&fanout_cone, np) || np.0 == node.0) {
                collected.push(np.0);
            }
            assert(collected@ =~= base + outside_cone(nps@, fo, node, (j + 1) as nat));
        }
    }
    let ghost c = collected@;
    let sorted = sorted_set_of(collected.as_slice());
    let ghost sv = sorted@;
    let mut dc = BoolExpr::zero();
    for k in 0..sorted.len()
        invariant
            nodes == network@,
            node.0 < nodes.len(),
            cone_result(nodes, node, INFINITY_LEVEL, false) == Ok::<Seq<SimpNodeId>, SimpDcError>(fo),
            cone_result(nodes, node, input_level, true) == Ok::<Seq<SimpNodeId>, SimpDcError>(fi),
            tfanin_collect(nodes, fo, node, fi, output_level, fi.len()) == Ok::<Seq<usize>, SimpDcError>(c),
            sv == sorted_of(c),
            sv == sorted@,
            or_internal_di(nodes, sv, k as nat) == Ok::<Expr, SimpDcError>(expr_view(dc)),
    {
        let candidate = SimpNodeId(sorted[k]);
        let cnode = match network.node(candidate) {
            Err(e) => {
                proof {
                    lemma_or_internal_err(nodes, sv, (k + 1) as nat, sv.len());
                }
                return Err(e);
            },
            Ok(c) => c,
        };
        if cnode.kind == SimpNodeKind::Internal {
            dc = BoolExpr::or(dc, simp_di(candidate));
        }
    }
    Ok(dc)
}

/// The transitive-fanin don't-care set joined with the fanout one.
pub open spec fn inout_result(nodes: Seq<SimpNode>, node: SimpNodeId, in_level: usize, out_level: usize) -> Result<Expr, SimpDcError> {
    match tfanin_result(nodes, node, in_level, out_level) {
        Err(e) => Err(e),
        Ok(a) => match fanout_dc_result(nodes, node) {
            Err(e) => Err(e),
            Ok(b) => Ok(or_expr(a, b)),
        },
    }
}

pub fn simp_inout_dc(network: &SimpNetwork, node: SimpNodeId, input_level: usize, output_level: usize)
    -> (r: Result<BoolExpr, SimpDcError>)
    ensures
        match inout_result(network@, node, input_level, output_level) {
            Ok(d) => r matches Ok(x) && expr_view(x) == d,
            Err(e) => r == Err::<BoolExpr, SimpDcError>(e),
        },
{
    let a = match simp_tfanin_dc(network, node, input_level, output_level) {
        Err(e) => {
            return Err(e);
        },
        Ok(a) => a,
    };
    let b = match simp_fanout_dc(network, node) {
        Err(e) => {
            return Err(e);
        },
        Ok(b) => b,
    };
    Ok(BoolExpr::or(a, b))
}

/// All don't cares: the whole transitive fanin and fanout cones.
pub fn simp_all_dc(network: &SimpNetwork, node: SimpNodeId) -> (r: Result<BoolExpr, SimpDcError>)
    ensures
        match inout_result(network@, node, INFINITY_LEVEL, INFINITY_LEVEL) {
            Ok(d) => r matches Ok(x) && expr_view(x) == d,
            Err(e) => r == Err::<BoolExpr, SimpDcError>(e),
        },
{
    simp_inout_dc(network, node, INFINITY_LEVEL, INFINITY_LEVEL)
}


/// `list` with `x` added at the end unless present.
pub open spec fn uniq_push(list: Seq<usize>, x: usize) -> Seq<usize> {
    if list.contains(x) { list } else { list.push(x) }
}

/// `list` with the internal nodes among the first `k` of `fo` added.
pub open spec fn push_internal(nodes: Seq<SimpNode>, list: Seq<usize>, fo: Seq<SimpNodeId>, k: nat) -> Result<Seq<usize>, SimpDcError>
    decreases k,
{
    if k == 0 {
        Ok(list)
    } else {
        match push_internal(nodes, list, fo, (k - 1) as nat) {
            Err(e) => Err(e),
            Ok(l) => {
                let x = fo[k - 1];
                if x.0 >= nodes.len() {
                    Err(SimpDcError::UnknownNode(x))
                } else if nodes[x.0 as int].kind == SimpNodeKind::Internal {
                    Ok(uniq_push(l, x.0))
                } else {
                    Ok(l)
                }
            },
        }
    }
}

/// The first `k` fanins and the internal nodes of their fanout cones, each
/// once, in order of first appearance.
pub open spec fn candidate_collect(nodes: Seq<SimpNode>, fanins: Seq<SimpNodeId>, k: nat) -> Result<Seq<usize>, SimpDcError>
    decreases k,
{
    if k == 0 {
        Ok(seq![])
    } else {
        match candidate_collect(nodes, fanins, (k - 1) as nat) {
            Err(e) => Err(e),
            Ok(l) => {
                let f = fanins[k - 1];
                match cone_result(nodes, f, INFINITY_LEVEL, false) {
                    Err(e) => Err(e),
                    Ok(fo) => push_internal(nodes, uniq_push(l, f.0), fo, fo.len()),
                }
            },
        }
    }
}

/// Every fanin of node `c` is in `support`.
pub open spec fn fanins_within(nodes: Seq<SimpNode>, c: usize, support: Seq<SimpNodeId>) -> bool {
    forall|i: int| 0 <= i < nodes[c as int].fanins@.len() ==> support.contains(#[trigger] nodes[c as int].fanins@[i])
}

/// The first `k` candidates other than `node` whose fanins are all in
/// `support`.
pub open spec fn retain_run(nodes: Seq<SimpNode>, cands: Seq<usize>, node: SimpNodeId, support: Seq<SimpNodeId>, k: nat)
    -> Result<Seq<SimpNodeId>, SimpDcError>
    decreases k,
{
    if k == 0 {
        Ok(seq![])
    } else {
        match retain_run(nodes, cands, node, support, (k - 1) as nat) {
            Err(e) => Err(e),
            Ok(acc) => {
                let c = cands[k - 1];
                if c == node.0 {
                    Ok(acc)
                } else if c >= nodes.len() {
                    Err(SimpDcError::UnknownNode(SimpNodeId(c)))
                } else if fanins_within(nodes, c, support) {
                    Ok(acc.push(SimpNodeId(c)))
                } else {
                    Ok(acc)
                }
            },
        }
    }
}

/// The candidates for substitution into a node: its fanins and the internal
/// nodes of their fanout cones, other than the node, whose fanins are all
/// fanins of the node.
pub open spec fn sub_candidates_result(nodes: Seq<SimpNode>, node: SimpNodeId) -> Result<Seq<SimpNodeId>, SimpDcError> {
    if node.0 >= nodes.len() {
        Err(SimpDcError::UnknownNode(node))
    } else {
        let fanins = nodes[node.0 as int].fanins@;
        match candidate_collect(nodes, fanins, fanins.len()) {
            Err(e) => Err(e),
            Ok(c) => retain_run(nodes, c, node, fanins, c.len()),
        }
    }
}

proof fn lemma_push_internal_err(nodes: Seq<SimpNode>, list: Seq<usize>, fo: Seq<SimpNodeId>, k: nat, m: nat)
    requires
        k <= m,
        push_internal(nodes, list, fo, k) is Err,
    ensures
        push_internal(nodes, list, fo, m) == push_internal(nodes, list, fo, k),
    decreases m - k,
{
    if k < m {
        lemma_push_internal_err(nodes, list, fo, k, (m - 1) as nat);
    }
}

proof fn lemma_candidate_collect_err(nodes: Seq<SimpNode>, fanins: Seq<SimpNodeId>, k: nat, m: nat)
    requires
        k <= m,
        candidate_collect(nodes, fanins, k) is Err,
    ensures
        candidate_collect(nodes, fanins, m) == candidate_collect(nodes, fanins, k),
    decreases m - k,
{
    if k < m {
        lemma_candidate_collect_err(nodes, fanins, k, (m - 1) as nat);
    }
}

proof fn lemma_retain_err(nodes: Seq<SimpNode>, cands: Seq<usize>, node: SimpNodeId, support: Seq<SimpNodeId>, k: nat, m: nat)
    requires
        k <= m,
        retain_run(nodes, cands, node, support, k) is Err,
    ensures
        retain_run(nodes, cands, node, support, m) == retain_run(nodes, cands, node, support, k),
    decreases m - k,
{
    if k < m {
        lemma_retain_err(nodes, cands, node, support, k, (m - 1) as nat);
    }
}

fn contains_usize(v: &Vec<usize>, x: usize) -> (r: bool)
    ensures
        r == v@.contains(x),
{
    for k in 0..v.len()
        invariant
            forall|i: int| 0 <= i < k ==> v@[i] != x,
    {
        if v[k] == x {
            return true;
        }
    }
    false
}

fn push_unique(list: &mut Vec<usize>, x: usize)
    ensures
        final(list)@ == uniq_push(old(list)@, x),
{
    if !contains_usize(list, x) {
        list.push(x);
    }
}

pub fn sub_fanin_candidates(network: &SimpNetwork, node: SimpNodeId) -> (r: Result<Vec<SimpNodeId>, SimpDcError>)
    ensures
        match sub_candidates_result(network@, node) {
            Ok(v) => r matches Ok(x) && x@ == v,
            Err(e) => r == Err::<Vec<SimpNodeId>, SimpDcError>(e),
        },
{
    let target = match network.node(node) {
        Err(e) => {
            return Err(e);
        },
        Ok(t) => t,
    };
    let ghost nodes = network@;
    let ghost fanins = target.fanins@;
    let mut candidates: Vec<usize> = Vec::new();
    for k in 0..target.fanins.len()
        invariant
            nodes == network@,
            node.0 < nodes.len(),
            *target == nodes[node.0 as int],
            fanins == target.fanins@,
            candidate_collect(nodes, fanins, k as nat) == Ok::<Seq<usize>, SimpDcError>(candidates@),
    {
        let fanin = target.fanins[k];
        let ghost l0 = candidates@;
        push_unique(&mut candidates, fanin.0);
        let fo = match transitive_fanout(network, fanin, INFINITY_LEVEL) {
            Err(e) => {
                proof {
                    lemma_candidate_collect_err(nodes, fanins, (k + 1) as nat, fanins.len());
                }
                return Err(e);
            },
            Ok(v) => v,
        };
        let ghost l1 = candidates@;
        for j in 0..fo.len()
            invariant
                nodes == network@,
                node.0 < nodes.len(),
                *target == nodes[node.0 as int],
                fanins == target.fanins@,
                k < fanins.len(),
                fanins[k as int] == fanin,
                candidate_collect(nodes, fanins, k as nat) == Ok::<Seq<usize>, SimpDcError>(l0),
                l1 == uniq_push(l0, fanin.0),
                cone_result(nodes, fanin, INFINITY_LEVEL, false) == Ok::<Seq<SimpNodeId>, SimpDcError>(fo@),
                push_internal(nodes, l1, fo@, j as nat) == Ok::<Seq<usize>, SimpDcError>(candidates@),
        {
            let x = fo[j];
            let xnode = match network.node(x) {
                Err(e) => {
                    proof {
                        lemma_push_internal_err(nodes, l1, fo@, (j + 1) as nat, fo@.len());
                        lemma_candidate_collect_err(nodes, fanins, (k + 1) as nat, fanins.len());
                    }
                    return Err(e);
                },
                Ok(n) => n,
            };
            if xnode.kind == SimpNodeKind::Internal {
                push_unique(&mut candidates, x.0);
            }
        }
    }
    let ghost c = candidates@;
    let mut retained: Vec<SimpNodeId> = Vec::new();
    for k in 0..candidates.len()
        invariant
            nodes == network@,
            node.0 < nodes.len(),
            *target == nodes[node.0 as int],
            fanins == target.fanins@,
            c == candidates@,
            candidate_collect(nodes, fanins, fanins.len()) == Ok::<Seq<usize>, SimpDcError>(c),
            retain_run(nodes, c, node, fanins, k as nat) == Ok::<Seq<SimpNodeId>, SimpDcError>(retained@),
    {
        let candidate = candidates[k];
        if candidate != node.0 {
            let cnode = match network.node(SimpNodeId(candidate)) {
                Err(e) => {
                    proof {
                        lemma_retain_err(nodes, c, node, fanins, (k + 1) as nat, c.len());
                    }
                    return Err(e);
                },
                Ok(n) => n,
            };
            let mut all = true;
            for i in 0..cnode.fanins.len()
                invariant
                    all <==> forall|t: int| 0 <= t < i ==> fanins.contains(#[trigger] cnode.fanins@[t]),
                    fanins == target.fanins@,
            {
                if !contains_id(&target.fanins, cnode.fanins[i]) {
                    all = false;
                }
            }
            if all {
                retained.push(SimpNodeId(candidate));
            }
        }
    }
    Ok(retained)
}


/// The sort key of a candidate: its cube count (the largest for an unknown
/// node).
pub open spec fn cube_key(nodes: Seq<SimpNode>, c: SimpNodeId) -> nat {
    if c.0 < nodes.len() { nodes[c.0 as int].cube_count as nat } else { usize::MAX as nat }
}

/// `x` placed after the entries of sorted `s` whose key is not above its own.
pub open spec fn insert_by_cubes(nodes: Seq<SimpNode>, s: Seq<SimpNodeId>, x: SimpNodeId) -> Seq<SimpNodeId>
    decreases s.len(),
{
    if s.len() == 0 {
        seq![x]
    } else if cube_key(nodes, s.last()) <= cube_key(nodes, x) {
        s.push(x)
    } else {
        insert_by_cubes(nodes, s.drop_last(), x).push(s.last())
    }
}

/// The candidates sorted by cube count, equal counts keeping their order.
pub open spec fn sort_by_cubes(nodes: Seq<SimpNode>, s: Seq<SimpNodeId>) -> Seq<SimpNodeId>
    decreases s.len(),
{
    if s.len() == 0 {
        seq![]
    } else {
        insert_by_cubes(nodes, sort_by_cubes(nodes, s.drop_last()), s.last())
    }
}

spec fn cubes_pos(nodes: Seq<SimpNode>, s: Seq<SimpNodeId>, x: SimpNodeId) -> int
    decreases s.len(),
{
    if s.len() == 0 {
        0
    } else if cube_key(nodes, s.last()) <= cube_key(nodes, x) {
        s.len() as int
    } else {
        cubes_pos(nodes, s.drop_last(), x)
    }
}

proof fn lemma_insert_by_cubes(nodes: Seq<SimpNode>, s: Seq<SimpNodeId>, x: SimpNodeId)
    ensures
        0 <= cubes_pos(nodes, s, x) <= s.len(),
        insert_by_cubes(nodes, s, x) == s.take(cubes_pos(nodes, s, x)).push(x) + s.skip(cubes_pos(nodes, s, x)),
    decreases s.len(),
{
    if s.len() > 0 && !(cube_key(nodes, s.last()) <= cube_key(nodes, x)) {
        lemma_insert_by_cubes(nodes, s.drop_last(), x);
        let p = cubes_pos(nodes, s, x);
        assert(s.drop_last().take(p) =~= s.take(p));
        assert(s.drop_last().skip(p).push(s.last()) =~= s.skip(p));
        assert(insert_by_cubes(nodes, s, x) =~= s.take(p).push(x) + s.skip(p));
    } else if s.len() > 0 {
        assert(s.take(s.len() as int) =~= s);
        assert(s.skip(s.len() as int) =~= Seq::<SimpNodeId>::empty());
        assert(insert_by_cubes(nodes, s, x) =~= s.take(s.len() as int).push(x) + s.skip(s.len() as int));
    } else {
        assert(insert_by_cubes(nodes, s, x) =~= s.take(0).push(x) + s.skip(0));
    }
}

fn cube_key_of(network: &SimpNetwork, c: SimpNodeId) -> (r: usize)
    ensures
        r as nat == cube_key(network@, c),
{
    match network.node(c) {
        Ok(n) => n.cube_count,
        Err(_) => usize::MAX,
    }
}

fn sort_candidates(network: &SimpNetwork, list: &Vec<SimpNodeId>) -> (r: Vec<SimpNodeId>)
    ensures
        r@ == sort_by_cubes(network@, list@),
{
    let ghost nodes = network@;
    let mut res: Vec<SimpNodeId> = Vec::new();
    for i in 0..list.len()
        invariant
            nodes == network@,
            res@ == sort_by_cubes(nodes, list@.take(i as int)),
    {
        let x = list[i];
        let kx = cube_key_of(network, x);
        let ghost s = res@;
        let mut p = res.len();
        assert(s.take(p as int) =~= s);
        while p > 0 && kx < cube_key_of(network, res[p - 1])
            invariant
                nodes == network@,
                p <= res@.len(),
                s == res@,
                kx as nat == cube_key(nodes, x),
                cubes_pos(nodes, s, x) == cubes_pos(nodes, s.take(p as int), x),
            decreases p,
        {
            assert(s.take(p as int).drop_last() =~= s.take(p - 1));
            assert(s.take(p as int).last() == s[p - 1]);
            p = p - 1;
        }
        proof {
            if p > 0 {
                assert(s.take(p as int).last() == s[p - 1]);
            }
            lemma_insert_by_cubes(nodes, s, x);
            assert(list@.take(i + 1).drop_last() =~= list@.take(i as int));
            assert(list@.take(i + 1).last() == x);
        }
        assert(cubes_pos(nodes, s, x) == p);
        res.insert(p, x);
        assert(res@ =~= s.take(p as int).push(x) + s.skip(p as int));
    }
    assert(list@.take(list@.len() as int) =~= list@);
    res
}

/// Whether a candidate is kept: always, or when its level is below a bound
/// (a candidate with no level is an error).
pub open spec fn keep_spec(nodes: Seq<SimpNode>, c: SimpNodeId, below: Option<i32>) -> Result<bool, SimpDcError> {
    match below {
        None => Ok(true),
        Some(lv) => if c.0 >= nodes.len() {
            Err(SimpDcError::UnknownNode(c))
        } else {
            match nodes[c.0 as int].level {
                None => Err(SimpDcError::MissingLevel(c)),
                Some(l) => Ok(l < lv),
            }
        },
    }
}

/// The selection after the first `k` sorted candidates: the selected nodes
/// and their literal total, or stopped by the literal budget, or failed.
pub enum SelectState {
    Going(Seq<SimpNodeId>, nat),
    Stopped(Seq<SimpNodeId>),
    Failed(SimpDcError),
}

pub open spec fn select_run(
    nodes: Seq<SimpNode>,
    list: Seq<SimpNodeId>,
    fanin_count: nat,
    target_cubes: nat,
    below: Option<i32>,
    k: nat,
) -> SelectState
    decreases k,
{
    if k == 0 {
        SelectState::Going(seq![], 0)
    } else {
        match select_run(nodes, list, fanin_count, target_cubes, below, (k - 1) as nat) {
            SelectState::Going(sel, acc) => {
                let c = list[k - 1];
                if c.0 >= nodes.len() {
                    SelectState::Failed(SimpDcError::UnknownNode(c))
                } else {
                    let cn = nodes[c.0 as int];
                    if cn.literal_count == 1 || cn.cube_count > 100 || cn.cube_count > 2 * target_cubes {
                        SelectState::Going(sel, acc)
                    } else if fanin_count > 15 && acc * fanin_count > 6000 {
                        SelectState::Stopped(sel)
                    } else if fanin_count >= 50 && acc * fanin_count > 3000 {
                        SelectState::Stopped(sel)
                    } else if cn.kind == SimpNodeKind::Internal {
                        match keep_spec(nodes, c, below) {
                            Err(e) => SelectState::Failed(e),
                            Ok(true) => SelectState::Going(sel.push(c), acc + cn.literal_count as nat),
                            Ok(false) => SelectState::Going(sel, acc),
                        }
                    } else {
                        SelectState::Going(sel, acc)
                    }
                }
            },
            other => other,
        }
    }
}

proof fn lemma_select_stays(
    nodes: Seq<SimpNode>,
    list: Seq<SimpNodeId>,
    fanin_count: nat,
    target_cubes: nat,
    below: Option<i32>,
    k: nat,
    m: nat,
)
    requires
        k <= m,
        !(select_run(nodes, list, fanin_count, target_cubes, below, k) is Going),
    ensures
        select_run(nodes, list, fanin_count, target_cubes, below, m) == select_run(nodes, list, fanin_count, target_cubes, below, k),
    decreases m - k,
{
    if k < m {
        lemma_select_stays(nodes, list, fanin_count, target_cubes, below, k, (m - 1) as nat);
    }
}

/// The candidates selected for the substitution don't-care set: sorted by
/// cube count, skipping single-literal ones and those with more than 100
/// cubes or more than twice the node's cubes, stopping once the literals
/// selected times the fanin count pass 6000 (more than 15 fanins) or 3000
/// (50 or more), and keeping the internal ones that `below` admits.
pub open spec fn filtered_result(nodes: Seq<SimpNode>, node: SimpNodeId, below: Option<i32>) -> Result<Seq<SimpNodeId>, SimpDcError> {
    if node.0 >= nodes.len() {
        Err(SimpDcError::UnknownNode(node))
    } else {
        match sub_candidates_result(nodes, node) {
            Err(e) => Err(e),
            Ok(c) => {
                let sorted = sort_by_cubes(nodes, c);
                let t = nodes[node.0 as int];
                match select_run(nodes, sorted, t.fanins@.len(), t.cube_count as nat, below, sorted.len()) {
                    SelectState::Going(sel, _) => Ok(sel),
                    SelectState::Stopped(sel) => Ok(sel),
                    SelectState::Failed(e) => Err(e),
                }
            },
        }
    }
}

/// A node the substitution don't-care set may use: internal, with more
/// than one literal, at most 100 cubes and at most twice the node's cubes,
/// and, under a level bound, on a level below it.
pub open spec fn admissible(nodes: Seq<SimpNode>, c: SimpNodeId, target_cubes: nat, below: Option<i32>) -> bool {
    &&& c.0 < nodes.len()
    &&& nodes[c.0 as int].kind == SimpNodeKind::Internal
    &&& nodes[c.0 as int].literal_count != 1
    &&& nodes[c.0 as int].cube_count <= 100
    &&& nodes[c.0 as int].cube_count <= 2 * target_cubes
    &&& below matches Some(lv) ==> nodes[c.0 as int].level matches Some(l) && l < lv
}

proof fn lemma_select_admissible(
    nodes: Seq<SimpNode>,
    list: Seq<SimpNodeId>,
    fanin_count: nat,
    target_cubes: nat,
    below: Option<i32>,
    k: nat,
)
    requires
        k <= list.len(),
    ensures
        match select_run(nodes, list, fanin_count, target_cubes, below, k) {
            SelectState::Going(sel, _) => forall|i: int| 0 <= i < sel.len() ==> admissible(nodes, #[trigger] sel[i], target_cubes, below),
            SelectState::Stopped(sel) => forall|i: int| 0 <= i < sel.len() ==> admissible(nodes, #[trigger] sel[i], target_cubes, below),
            SelectState::Failed(_) => true,
        },
    decreases k,
{
    if k > 0 {
        lemma_select_admissible(nodes, list, fanin_count, target_cubes, below, (k - 1) as nat);
    }
}

/// Every node the substitution (or, with a level bound, the level)
/// don't-care set is built from is admissible for the node.
pub proof fn lemma_filtered_admissible(nodes: Seq<SimpNode>, node: SimpNodeId, below: Option<i32>)
    ensures
        match filtered_result(nodes, node, below) {
            Ok(v) => forall|i: int| 0 <= i < v.len() ==> admissible(nodes, #[trigger] v[i], nodes[node.0 as int].cube_count as nat, below),
            Err(_) => true,
        },
{
    if node.0 < nodes.len() {
        if let Ok(c) = sub_candidates_result(nodes, node) {
            let sorted = sort_by_cubes(nodes, c);
            let t = nodes[node.0 as int];
            lemma_select_admissible(nodes, sorted, t.fanins@.len(), t.cube_count as nat, below, sorted.len());
        }
    }
}

/// Whether `acc * f` is above `bound`, with `acc` saturated at `usize::MAX`.
fn product_above(acc: usize, f: usize, bound: usize) -> (r: bool)
    ensures
        r == (acc as int * f as int > bound as int),
{
    match acc.checked_mul(f) {
        Some(p) => p > bound,
        None => true,
    }
}

fn filtered_sub_fanin_nodes(network: &SimpNetwork, node: SimpNodeId, below: Option<i32>) -> (r: Result<Vec<SimpNodeId>, SimpDcError>)
    ensures
        match filtered_result(network@, node, below) {
            Ok(v) => r matches Ok(x) && x@ == v,
            Err(e) => r == Err::<Vec<SimpNodeId>, SimpDcError>(e),
        },
{
    let target = match network.node(node) {
        Err(e) => {
            return Err(e);
        },
        Ok(t) => t,
    };
    let ghost nodes = network@;
    let fanin_count = target.fanins.len();
    let target_cube_count = target.cube_count;
    let candidates = match sub_fanin_candidates(network, node) {
        Err(e) => {
            return Err(e);
        },
        Ok(c) => c,
    };
    let dc_list = sort_candidates(network, &candidates);
    let ghost sl = dc_list@;
    let mut selected: Vec<SimpNodeId> = Vec::new();
    let mut acc: usize = 0;
    let ghost mut acc_n: nat = 0;
    let mut k: usize = 0;
    while k < dc_list.len()
        invariant
            nodes == network@,
            node.0 < nodes.len(),
            *target == nodes[node.0 as int],
            fanin_count == target.fanins@.len(),
            target_cube_count == target.cube_count,
            sub_candidates_result(nodes, node) == Ok::<Seq<SimpNodeId>, SimpDcError>(candidates@),
            sl == dc_list@,
            sl == sort_by_cubes(nodes, candidates@),
            k <= sl.len(),
            select_run(nodes, sl, fanin_count as nat, target_cube_count as nat, below, k as nat)
                == SelectState::Going(selected@, acc_n),
            acc as nat == (if acc_n > usize::MAX { usize::MAX as nat } else { acc_n }),
        decreases sl.len() - k,
    {
        let candidate = dc_list[k];
        let cnode = match network.node(candidate) {
            Err(e) => {
                proof {
                    lemma_select_stays(nodes, sl, fanin_count as nat, target_cube_count as nat, below, (k + 1) as nat, sl.len());
                }
                return Err(e);
            },
            Ok(n) => n,
        };
        let too_big = cnode.cube_count > target_cube_count && cnode.cube_count - target_cube_count > target_cube_count;
        if cnode.literal_count == 1 || cnode.cube_count > 100 || too_big {
            k = k + 1;
        } else {
            proof {
                if acc_n > usize::MAX {
                    assert(acc_n * fanin_count >= usize::MAX as int * fanin_count) by (nonlinear_arith)
                        requires acc_n > usize::MAX, fanin_count >= 0;
                    assert(usize::MAX as int * fanin_count >= usize::MAX as int) by (nonlinear_arith)
                        requires fanin_count >= 1;
                }
            }
            let over_6000 = fanin_count > 15 && product_above(acc, fanin_count, 6000);
            let over_3000 = fanin_count >= 50 && product_above(acc, fanin_count, 3000);
            if over_6000 || over_3000 {
                proof {
                    lemma_select_stays(nodes, sl, fanin_count as nat, target_cube_count as nat, below, (k + 1) as nat, sl.len());
                }
                return Ok(selected);
            }
            if cnode.kind == SimpNodeKind::Internal {
                let keep = match below {
                    None => true,
                    Some(lv) => match cnode.level {
                        None => {
                            proof {
                                lemma_select_stays(nodes, sl, fanin_count as nat, target_cube_count as nat, below, (k + 1) as nat, sl.len());
                            }
                            return Err(SimpDcError::MissingLevel(candidate));
                        },
                        Some(l) => l < lv,
                    },
                };
                if keep {
                    selected.push(candidate);
                    proof {
                        acc_n = acc_n + cnode.literal_count as nat;
                    }
                    acc = acc.saturating_add(cnode.literal_count);
                }
            }
            k = k + 1;
        }
    }
    Ok(selected)
}

/// The discrepancies of the first `k` ids, joined by `or`.
pub open spec fn or_di(ids: Seq<SimpNodeId>, k: nat) -> Expr
    decreases k,
{
    if k == 0 {
        Expr::Const(false)
    } else {
        or_expr(or_di(ids, (k - 1) as nat), di_expr(ids[k - 1].0))
    }
}

fn or_discrepancy_terms(ids: &Vec<SimpNodeId>) -> (r: BoolExpr)
    ensures
        expr_view(r) == or_di(ids@, ids@.len()),
{
    let mut dc = BoolExpr::zero();
    for k in 0..ids.len()
        invariant
            expr_view(dc) == or_di(ids@, k as nat),
    {
        dc = BoolExpr::or(dc, simp_di(ids[k]));
    }
    dc
}

/// The substitution don't-care set: the discrepancies of the selected
/// candidates.
pub fn simp_sub_fanin_dc(network: &SimpNetwork, node: SimpNodeId) -> (r: Result<BoolExpr, SimpDcError>)
    ensures
        match filtered_result(network@, node, None) {
            Ok(v) => r matches Ok(x) && expr_view(x) == or_di(v, v.len()),
            Err(e) => r == Err::<BoolExpr, SimpDcError>(e),
        },
{
    let selected = match filtered_sub_fanin_nodes(network, node, None) {
        Err(e) => {
            return Err(e);
        },
        Ok(v) => v,
    };
    Ok(or_discrepancy_terms(&selected))
}

/// The level don't-care set: as the substitution one, of the candidates
/// whose level is below the node's.
pub open spec fn level_dc_result(nodes: Seq<SimpNode>, node: SimpNodeId) -> Result<Expr, SimpDcError> {
    if node.0 >= nodes.len() {
        Err(SimpDcError::UnknownNode(node))
    } else {
        match nodes[node.0 as int].level {
            None => Err(SimpDcError::MissingLevel(node)),
            Some(lv) => match filtered_result(nodes, node, Some(lv)) {
                Err(e) => Err(e),
                Ok(v) => Ok(or_di(v, v.len())),
            },
        }
    }
}

pub fn simp_level_dc(network: &SimpNetwork, node: SimpNodeId) -> (r: Result<BoolExpr, SimpDcError>)
    ensures
        match level_dc_result(network@, node) {
            Ok(d) => r matches Ok(x) && expr_view(x) == d,
            Err(e) => r == Err::<BoolExpr, SimpDcError>(e),
        },
{
    let target = match network.node(node) {
        Err(e) => {
            return Err(e);
        },
        Ok(t) => t,
    };
    let node_level = match target.level {
        None => {
            return Err(SimpDcError::MissingLevel(node));
        },
        Some(l) => l,
    };
    let selected = match filtered_sub_fanin_nodes(network, node, Some(node_level)) {
        Err(e) => {
            return Err(e);
        },
        Ok(v) => v,
    };
    Ok(or_discrepancy_terms(&selected))
}

/// The nodes that have a level, with it, in node order (first `k` nodes).
pub open spec fn level_entries(nodes: Seq<SimpNode>, k: nat) -> Seq<(SimpNodeId, i32)>
    decreases k,
{
    if k == 0 {
        seq![]
    } else {
        match nodes[k - 1].level {
            Some(l) => level_entries(nodes, (k - 1) as nat).push((SimpNodeId((k - 1) as usize), l)),
            None => level_entries(nodes, (k - 1) as nat),
        }
    }
}

/// The level of each node that has one, in node order.
pub fn level_table_from_nodes(network: &SimpNetwork) -> (r: Vec<(SimpNodeId, i32)>)
    ensures
        r@ == level_entries(network@, network@.len()),
{
    let nodes = network.nodes();
    let mut out: Vec<(SimpNodeId, i32)> = Vec::new();
    for i in 0..nodes.len()
        invariant
            nodes@ == network@,
            out@ == level_entries(network@, i as nat),
    {
        match nodes[i].level {
            Some(l) => out.push((SimpNodeId(i), l)),
            None => {},
        }
    }
    out
}

} // verus!
