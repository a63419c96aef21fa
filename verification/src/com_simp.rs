//! The simplify commands: their registrations, option parsing into command
//! plans, dispatch to a network backend, the cone-level argument, and node
//! levels over a node list in depth-first order.

use vstd::prelude::*;
use crate::numparse::{c_atoi, atoi_spec};
use crate::text::{chars_of, push_char, push_str, str_eq, string_from_chars};

verus! {

/// The node count above which BDD construction gives up.
pub const BDD_NODE_LIMIT: usize = 480_000;
/// The node count below which BDD construction continues freely.
pub const BDD_NODE_LOW: usize = 50_000;

#[derive(Clone, Copy, Debug, Eq, PartialEq, Structural)]
pub enum SimplifyCommandKind {
    Simplify,
    InternalSimp,
    FullSimplify,
}

/// A command name with its kind and whether it changes the network.
#[derive(Clone, Copy, Debug, Eq, PartialEq)]
pub struct CommandRegistration {
    pub name: &'static str,
    pub kind: SimplifyCommandKind,
    pub changes_network: bool,
}

#[derive(Clone, Copy, Debug, Eq, PartialEq, Structural)]
pub enum SimMethod {
    SimpComp,
    Espresso,
    Exact,
    ExactLits,
    DcSimp,
    NoComp,
    SNoComp,
}

#[derive(Clone, Copy, Debug, Eq, PartialEq, Structural)]
pub enum SimAccept {
    FactoredLiterals,
    SopLiterals,
    Cubes,
    Always,
}

#[derive(Clone, Copy, Debug, Eq, PartialEq, Structural)]
pub enum SimDcType {
    NoDontCare,
    Fanin,
    Fanout,
    Inout,
    All,
    SubFanin,
    Level,
}

#[derive(Clone, Copy, Debug, Eq, PartialEq, Structural)]
pub enum SimFilter {
    Unfiltered,
    Exact,
    DisjointSupport,
    Size,
    FirstDistance,
    SecondDistance,
    Level,
    All,
}

/// Options of `simplify` and `_simp`.
#[derive(Clone, Debug, Eq, PartialEq)]
pub struct SimplifyOptions {
    pub method: SimMethod,
    pub accept: SimAccept,
    pub dctype: SimDcType,
    pub filter: SimFilter,
    pub trace: bool,
    pub debug: bool,
    pub fanin_level: i32,
    pub fanin_fanout_level: i32,
    pub node_names: Vec<String>,
}

/// The scalar settings of simplify options (all but the node names).
pub struct SimplifySettings {
    pub method: SimMethod,
    pub accept: SimAccept,
    pub dctype: SimDcType,
    pub filter: SimFilter,
    pub trace: bool,
    pub debug: bool,
    pub fanin_level: i32,
    pub fanin_fanout_level: i32,
}

/// The settings of `simplify` before any option.
pub open spec fn simplify_default_settings() -> SimplifySettings {
    SimplifySettings {
        method: SimMethod::SNoComp,
        accept: SimAccept::FactoredLiterals,
        dctype: SimDcType::SubFanin,
        filter: SimFilter::Exact,
        trace: false,
        debug: false,
        fanin_level: 1,
        fanin_fanout_level: 0,
    }
}

/// The settings of `_simp` before any option.
pub open spec fn internal_simp_default_settings() -> SimplifySettings {
    SimplifySettings { dctype: SimDcType::Fanin, ..simplify_default_settings() }
}

/// The scalar settings of simplify options.
pub open spec fn settings_of(o: SimplifyOptions) -> SimplifySettings {
    SimplifySettings {
        method: o.method,
        accept: o.accept,
        dctype: o.dctype,
        filter: o.filter,
        trace: o.trace,
        debug: o.debug,
        fanin_level: o.fanin_level,
        fanin_fanout_level: o.fanin_fanout_level,
    }
}

/// The views of a list of strings.
pub open spec fn string_views(v: Seq<String>) -> Seq<Seq<char>> {
    Seq::new(v.len(), |i: int| v[i]@)
}

impl SimplifyOptions {
    pub fn simplify_defaults() -> (r: Self)
        ensures
            settings_of(r) == simplify_default_settings(),
            r.node_names@ == Seq::<String>::empty(),
    {
        SimplifyOptions {
            method: SimMethod::SNoComp,
            accept: SimAccept::FactoredLiterals,
            dctype: SimDcType::SubFanin,
            filter: SimFilter::Exact,
            trace: false,
            debug: false,
            fanin_level: 1,
            fanin_fanout_level: 0,
            node_names: Vec::new(),
        }
    }

    pub fn internal_simp_defaults() -> (r: Self)
        ensures
            settings_of(r) == internal_simp_default_settings(),
            r.node_names@ == Seq::<String>::empty(),
    {
        SimplifyOptions { dctype: SimDcType::Fanin, ..SimplifyOptions::simplify_defaults() }
    }
}

/// Options of `full_simplify`.
#[derive(Clone, Debug, Eq, PartialEq)]
pub struct FullSimplifyOptions {
    pub method: SimMethod,
    pub accept: SimAccept,
    pub dctype: SimDcType,
    pub filter: SimFilter,
    pub ordering: i32,
    pub timeout_seconds: i32,
    pub verbose: bool,
    pub trace: bool,
    pub fanin_level: i32,
    pub fanin_fanout_level: i32,
    pub ignored_operands: Vec<String>,
}

/// The scalar settings of full-simplify options.
pub struct FullSettings {
    pub method: SimMethod,
    pub accept: SimAccept,
    pub dctype: SimDcType,
    pub filter: SimFilter,
    pub ordering: i32,
    pub timeout_seconds: i32,
    pub verbose: bool,
    pub trace: bool,
    pub fanin_level: i32,
    pub fanin_fanout_level: i32,
}

/// The settings of `full_simplify` before any option.
pub open spec fn full_default_settings() -> FullSettings {
    FullSettings {
        method: SimMethod::SNoComp,
        accept: SimAccept::FactoredLiterals,
        dctype: SimDcType::All,
        filter: SimFilter::Exact,
        ordering: 0,
        timeout_seconds: 0,
        verbose: false,
        trace: false,
        fanin_level: 1,
        fanin_fanout_level: 0,
    }
}

/// The scalar settings of full-simplify options.
pub open spec fn full_settings_of(o: FullSimplifyOptions) -> FullSettings {
    FullSettings {
        method: o.method,
        accept: o.accept,
        dctype: o.dctype,
        filter: o.filter,
        ordering: o.ordering,
        timeout_seconds: o.timeout_seconds,
        verbose: o.verbose,
        trace: o.trace,
        fanin_level: o.fanin_level,
        fanin_fanout_level: o.fanin_fanout_level,
    }
}

impl Default for FullSimplifyOptions {
    fn default() -> (r: Self)
        ensures
            full_settings_of(r) == full_default_settings(),
            r.ignored_operands@ == Seq::<String>::empty(),
    {
        FullSimplifyOptions {
            method: SimMethod::SNoComp,
            accept: SimAccept::FactoredLiterals,
            dctype: SimDcType::All,
            filter: SimFilter::Exact,
            ordering: 0,
            timeout_seconds: 0,
            verbose: false,
            trace: false,
            fanin_level: 1,
            fanin_fanout_level: 0,
            ignored_operands: Vec::new(),
        }
    }
}

#[derive(Clone, Debug, Eq, PartialEq)]
pub enum SimplifyCommand {
    Simplify(SimplifyCommandPlan),
    InternalSimp(SimplifyCommandPlan),
    FullSimplify(FullSimplifyCommandPlan),
}

/// A step of a `simplify` or `_simp` run.
#[derive(Clone, Debug, Eq, PartialEq)]
pub enum SimplifyAction {
    ResetGlobalFlags { trace: bool, debug: bool, fanin_level: i32, fanin_fanout_level: i32 },
    ComputeNodeLevels,
    SelectNodes(Vec<String>),
    OrderNodesForSimplify,
    SimplifyInternalNodes { method: SimMethod, dctype: SimDcType, accept: SimAccept, filter: SimFilter },
}

#[derive(Clone, Debug, Eq, PartialEq)]
pub struct SimplifyCommandPlan {
    pub command: SimplifyCommandKind,
    pub options: SimplifyOptions,
    pub actions: Vec<SimplifyAction>,
}

/// A step of a `full_simplify` run.
#[derive(Clone, Debug, Eq, PartialEq, Structural)]
pub enum FullSimplifyAction {
    ResetGlobalFlags { verbose: bool, trace: bool, fanin_level: i32, fanin_fanout_level: i32 },
    InstallTimeoutHandler { seconds: i32 },
    ComputeLevelFilter,
    CollectPrimaryOutputs,
    CopyAndAttachDcNetwork,
    OrderPrimaryInputsByDepth,
    OrderPrimaryInputsByLevel,
    StartBddManager,
    ConvertNodesToBdds { low_node_threshold: usize, hard_node_limit: usize },
    SimplifyWithoutOdc,
    SimplifyWithOdc,
    CleanupBddCspfAndDcNetwork,
}

#[derive(Clone, Debug, Eq, PartialEq)]
pub struct FullSimplifyCommandPlan {
    pub options: FullSimplifyOptions,
    pub actions: Vec<FullSimplifyAction>,
}

#[derive(Clone, Copy, Debug, Eq, PartialEq, Structural)]
pub enum SimplifyNodeKind {
    PrimaryInput,
    Internal,
    PrimaryOutput,
}

/// A node named by its fanins' names.
#[derive(Clone, Debug, Eq, PartialEq)]
pub struct SimplifyGraphNode {
    pub name: String,
    pub kind: SimplifyNodeKind,
    pub fanins: Vec<String>,
}

impl SimplifyGraphNode {
    pub fn new(name: &str, kind: SimplifyNodeKind, fanins: Vec<String>) -> (r: Self)
        ensures
            r.name@ == name@,
            r.kind == kind,
            r.fanins == fanins,
    {
        SimplifyGraphNode { name: name.to_owned(), kind, fanins }
    }
}

/// Errors of option parsing.
#[derive(Clone, Debug, Eq, PartialEq)]
pub enum CommandParseError {
    MissingOptionValue(char),
    UnsupportedOption(String),
    InvalidArgument { option: char, value: String },
    InvalidConeLevels(String),
    UnknownAccept(String),
    UnknownDontCareType(String),
    UnknownMethod(String),
    UnknownFilter(String),
}

/// An error reported by a network backend.
#[derive(Clone, Debug, Eq, PartialEq)]
pub enum SimplifyCommandError {
    Backend(String),
}

/// The simplify commands.
pub fn simplify_command_registrations() -> (r: Vec<CommandRegistration>)
    ensures
        r@.len() == 3,
        r@[0].name == "simplify" && r@[0].kind == SimplifyCommandKind::Simplify && r@[0].changes_network,
        r@[1].name == "_simp" && r@[1].kind == SimplifyCommandKind::InternalSimp && r@[1].changes_network,
        r@[2].name == "full_simplify" && r@[2].kind == SimplifyCommandKind::FullSimplify && !r@[2].changes_network,
{
    vec![
        CommandRegistration { name: "simplify", kind: SimplifyCommandKind::Simplify, changes_network: true },
        CommandRegistration { name: "_simp", kind: SimplifyCommandKind::InternalSimp, changes_network: true },
        CommandRegistration { name: "full_simplify", kind: SimplifyCommandKind::FullSimplify, changes_network: false },
    ]
}

/// The usage line of `simplify` and `_simp`.
pub fn simplify_usage(command: &str) -> (r: String)
    ensures
        r@ == "usage: "@ + command@ + " [-d][-i <num>[:<num>]] [-m method] [-f filter] [node-list]\n"@,
{
    let mut s = String::new();
    push_str(&mut s, "usage: ");
    push_str(&mut s, command);
    push_str(&mut s, " [-d][-i <num>[:<num>]] [-m method] [-f filter] [node-list]\n");
    assert(s@ =~= "usage: "@ + command@ + " [-d][-i <num>[:<num>]] [-m method] [-f filter] [node-list]\n"@);
    s
}

/// The usage line of `full_simplify`.
pub fn full_simplify_usage(command: &str) -> (r: String)
    ensures
        r@ == "usage: "@ + command@ + " [-d][-o ordering] [-m method] [-l] [-t time] [-v]\n"@,
{
    let mut s = String::new();
    push_str(&mut s, "usage: ");
    push_str(&mut s, command);
    push_str(&mut s, " [-d][-o ordering] [-m method] [-l] [-t time] [-v]\n");
    assert(s@ =~= "usage: "@ + command@ + " [-d][-o ordering] [-m method] [-l] [-t time] [-v]\n"@);
    s
}

/// The position of the first `c` in `s`, or -1.
pub open spec fn index_of_char(s: Seq<char>, c: char) -> int
    decreases s.len(),
{
    if s.len() == 0 {
        -1
    } else if s[0] == c {
        0
    } else {
        let k = index_of_char(s.drop_first(), c);
        if k < 0 { -1 } else { k + 1 }
    }
}

/// The fanin and fanin-fanout levels of a cone argument "<num>[:<num>]":
/// none for an empty argument or one with a space; the fanin level is 1 when
/// the argument starts with ':', and the fanin-fanout level is 0 without a
/// ':'; the numbers are read leniently.
pub open spec fn cone_levels(v: Seq<char>) -> Option<(i32, i32)> {
    if v.len() == 0 || v.contains(' ') {
        None
    } else {
        let k = index_of_char(v, ':');
        if k < 0 {
            Some((atoi_spec(v), 0i32))
        } else {
            Some((if k == 0 { 1i32 } else { atoi_spec(v.take(k)) }, atoi_spec(v.skip(k + 1))))
        }
    }
}

fn find_char(s: &Vec<char>, c: char) -> (r: Option<usize>)
    ensures
        match r {
            Some(k) => k as int == index_of_char(s@, c) && k < s@.len() && s@[k as int] == c,
            None => index_of_char(s@, c) == -1 && !s@.contains(c),
        },
{
    let mut k: usize = 0;
    assert(s@.skip(0) =~= s@);
    while k < s.len()
        invariant
            k <= s@.len(),
            forall|j: int| 0 <= j < k ==> s@[j] != c,
            index_of_char(s@, c) == (if index_of_char(s@.skip(k as int), c) < 0 { -1 } else { index_of_char(s@.skip(k as int), c) + k }),
        decreases s@.len() - k,
    {
        assert(s@.skip(k as int)[0] == s@[k as int]);
        assert(s@.skip(k as int).drop_first() =~= s@.skip(k + 1));
        if s[k] == c {
            return Some(k);
        }
        k = k + 1;
    }
    assert(s@.skip(k as int) =~= Seq::<char>::empty());
    None
}

fn slice_chars(s: &Vec<char>, from: usize, to: usize) -> (r: Vec<char>)
    requires
        from <= to <= s@.len(),
    ensures
        r@ == s@.subrange(from as int, to as int),
{
    let mut out: Vec<char> = Vec::new();
    for i in from..to
        invariant
            from <= to <= s@.len(),
            out@ == s@.subrange(from as int, i as int),
    {
        out.push(s[i]);
        assert(out@ =~= s@.subrange(from as int, i + 1));
    }
    out
}

/// Reads a cone-level argument "<num>[:<num>]".
pub fn get_cone_levels(value: &str) -> (r: Option<(i32, i32)>)
    ensures
        r == cone_levels(value@),
{
    let cs = chars_of(value);
    if cs.len() == 0 {
        return None;
    }
    if find_char(&cs, ' ').is_some() {
        return None;
    }
    match find_char(&cs, ':') {
        None => Some((c_atoi(&cs), 0)),
        Some(k) => {
            let fanin = if k == 0 {
                1
            } else {
                let left = slice_chars(&cs, 0, k);
                assert(left@ =~= cs@.take(k as int));
                c_atoi(&left)
            };
            let right = slice_chars(&cs, k + 1, cs.len());
            assert(right@ =~= cs@.skip(k + 1));
            Some((fanin, c_atoi(&right)))
        },
    }
}

/// Levels of named nodes; a later entry for a name replaces an earlier one.
#[derive(Clone, Debug, Eq, PartialEq)]
pub struct NodeLevels {
    entries: Vec<(String, i32)>,
}

/// The map of name/level entries, later entries replacing earlier ones.
pub open spec fn entries_map(es: Seq<(String, i32)>) -> Map<Seq<char>, i32>
    decreases es.len(),
{
    if es.len() == 0 {
        Map::empty()
    } else {
        entries_map(es.drop_last()).insert(es.last().0@, es.last().1)
    }
}

impl View for NodeLevels {
    type V = Map<Seq<char>, i32>;

    closed spec fn view(&self) -> Map<Seq<char>, i32> {
        entries_map(self.entries@)
    }
}

impl NodeLevels {
    /// The level of the named node.
    pub fn get(&self, name: &str) -> (r: Option<&i32>)
        ensures
            match r {
                Some(l) => self@.contains_key(name@) && self@[name@] == *l,
                None => !self@.contains_key(name@),
            },
    {
        let ghost es = self.entries@;
        let mut i = self.entries.len();
        assert(es.take(i as int) =~= es);
        while i > 0
            invariant
                i <= es.len(),
                es == self.entries@,
                entries_map(es).contains_key(name@) == entries_map(es.take(i as int)).contains_key(name@),
                entries_map(es.take(i as int)).contains_key(name@) ==> entries_map(es)[name@] == entries_map(es.take(i as int))[name@],
            decreases i,
        {
            assert(es.take(i as int).drop_last() =~= es.take(i - 1));
            if str_eq(self.entries[i - 1].0.as_str(), name) {
                return Some(&self.entries[i - 1].1);
            }
            i = i - 1;
        }
        assert(es.take(0) =~= Seq::<(String, i32)>::empty());
        None
    }

    fn insert(&mut self, name: String, level: i32)
        ensures
            final(self)@ == old(self)@.insert(name@, level),
    {
        self.entries.push((name, level));
        assert(self.entries@.drop_last() =~= old(self).entries@);
    }
}

/// The highest level known among the fanins.
pub open spec fn max_known_level(m: Map<Seq<char>, i32>, fs: Seq<Seq<char>>) -> Option<i32>
    decreases fs.len(),
{
    if fs.len() == 0 {
        None
    } else {
        let rest = max_known_level(m, fs.drop_last());
        if m.contains_key(fs.last()) {
            match rest {
                Some(x) => Some(if x >= m[fs.last()] { x } else { m[fs.last()] }),
                None => Some(m[fs.last()]),
            }
        } else {
            rest
        }
    }
}

/// The levels after scanning nodes in depth-first order: inputs have none;
/// every other node gets one more than the highest level among its fanins
/// that have one, or 1.
pub open spec fn node_levels(nodes: Seq<SimplifyGraphNode>) -> Map<Seq<char>, i32>
    decreases nodes.len(),
{
    if nodes.len() == 0 {
        Map::empty()
    } else {
        let m = node_levels(nodes.drop_last());
        let v = nodes.last();
        if v.kind == SimplifyNodeKind::PrimaryInput {
            m
        } else {
            let l: i32 = match max_known_level(m, string_views(v.fanins@)) {
                Some(x) => (x + 1) as i32,
                None => 1,
            };
            m.insert(v.name@, l)
        }
    }
}

proof fn lemma_max_known_bound(m: Map<Seq<char>, i32>, fs: Seq<Seq<char>>, b: int)
    requires
        forall|k: Seq<char>| m.contains_key(k) ==> 1 <= #[trigger] m[k] <= b,
    ensures
        max_known_level(m, fs) matches Some(x) ==> 1 <= x <= b,
    decreases fs.len(),
{
    if fs.len() > 0 {
        lemma_max_known_bound(m, fs.drop_last(), b);
    }
}

/// The highest known level among the fanins bounds each of their known
/// levels and is one of them; it is absent only when none is known.
pub proof fn lemma_max_known_level(m: Map<Seq<char>, i32>, fs: Seq<Seq<char>>)
    ensures
        match max_known_level(m, fs) {
            Some(x) => (forall|i: int| 0 <= i < fs.len() && m.contains_key(#[trigger] fs[i]) ==> m[fs[i]] <= x)
                && exists|i: int| 0 <= i < fs.len() && m.contains_key(#[trigger] fs[i]) && m[fs[i]] == x,
            None => forall|i: int| 0 <= i < fs.len() ==> !m.contains_key(#[trigger] fs[i]),
        },
    decreases fs.len(),
{
    if fs.len() > 0 {
        let t = fs.drop_last();
        lemma_max_known_level(m, t);
        let n = fs.len() - 1;
        assert forall|i: int| 0 <= i < t.len() implies #[trigger] t[i] == fs[i] by {}
        assert(fs[n] == fs.last());
        match max_known_level(m, fs) {
            Some(y) => {
                assert forall|i: int| 0 <= i < fs.len() && m.contains_key(#[trigger] fs[i]) implies m[fs[i]] <= y by {
                    if i < n {
                        assert(t[i] == fs[i]);
                    }
                }
                if m.contains_key(fs.last()) && (max_known_level(m, t) is None || m[fs.last()] == y) {
                    assert(m.contains_key(fs[n]) && m[fs[n]] == y);
                } else {
                    let x = max_known_level(m, t)->Some_0;
                    let w = choose|i: int| 0 <= i < t.len() && m.contains_key(#[trigger] t[i]) && m[t[i]] == x;
                    assert(fs[w] == t[w]);
                    assert(m.contains_key(fs[w]) && m[fs[w]] == y);
                }
            },
            None => {
                assert forall|i: int| 0 <= i < fs.len() implies !m.contains_key(#[trigger] fs[i]) by {
                    if i < n {
                        assert(t[i] == fs[i]);
                    }
                }
            },
        }
    }
}

proof fn lemma_node_levels_bound(nodes: Seq<SimplifyGraphNode>)
    requires
        nodes.len() < i32::MAX,
    ensures
        forall|key: Seq<char>| #[trigger] node_levels(nodes).contains_key(key) ==> 1 <= node_levels(nodes)[key] <= nodes.len(),
    decreases nodes.len(),
{
    if nodes.len() > 0 {
        let m = node_levels(nodes.drop_last());
        lemma_node_levels_bound(nodes.drop_last());
        let fs = string_views(nodes.last().fanins@);
        lemma_max_known_level(m, fs);
        if let Some(x) = max_known_level(m, fs) {
            let w = choose|i: int| 0 <= i < fs.len() && m.contains_key(#[trigger] fs[i]) && m[fs[i]] == x;
            assert(m.contains_key(fs[w]));
        }
    }
}

/// Each node other than an input is placed one level above the highest
/// level among its fanins at that point of the scan: above every fanin
/// with a level, and exactly one above one of them (level 1 when no fanin
/// has one).
pub proof fn lemma_node_level_above_fanins(nodes: Seq<SimplifyGraphNode>, k: int)
    requires
        nodes.len() < i32::MAX,
        0 <= k < nodes.len(),
        nodes[k].kind != SimplifyNodeKind::PrimaryInput,
    ensures
        ({
            let before = node_levels(nodes.take(k));
            let fs = string_views(nodes[k].fanins@);
            let l = node_levels(nodes.take(k + 1))[nodes[k].name@];
            &&& node_levels(nodes.take(k + 1)).contains_key(nodes[k].name@)
            &&& forall|i: int| 0 <= i < fs.len() && before.contains_key(#[trigger] fs[i]) ==> before[fs[i]] < l
            &&& (exists|i: int| 0 <= i < fs.len() && before.contains_key(#[trigger] fs[i]) && l == before[fs[i]] + 1)
                || (l == 1 && forall|i: int| 0 <= i < fs.len() ==> !before.contains_key(#[trigger] fs[i]))
        }),
{
    let t = nodes.take(k + 1);
    assert(t.drop_last() =~= nodes.take(k));
    assert(t.last() == nodes[k]);
    let before = node_levels(nodes.take(k));
    lemma_node_levels_bound(nodes.take(k));
    let fs = string_views(nodes[k].fanins@);
    lemma_max_known_level(before, fs);
    if let Some(x) = max_known_level(before, fs) {
        let w = choose|i: int| 0 <= i < fs.len() && before.contains_key(#[trigger] fs[i]) && before[fs[i]] == x;
        assert(before.contains_key(fs[w]));
    }
}

/// Computes node levels over nodes in depth-first order.
pub fn find_node_levels(nodes_in_dfs_order: &[SimplifyGraphNode]) -> (r: NodeLevels)
    requires
        nodes_in_dfs_order@.len() < i32::MAX,
    ensures
        r@ == node_levels(nodes_in_dfs_order@),
{
    let ghost ns = nodes_in_dfs_order@;
    let mut levels = NodeLevels { entries: Vec::new() };
    assert(entries_map(Seq::<(String, i32)>::empty()) =~= Map::<Seq<char>, i32>::empty());
    assert(ns.take(0) =~= Seq::<SimplifyGraphNode>::empty());
    for i in 0..nodes_in_dfs_order.len()
        invariant
            ns == nodes_in_dfs_order@,
            ns.len() < i32::MAX,
            levels@ == node_levels(ns.take(i as int)),
            forall|k: Seq<char>| levels@.contains_key(k) ==> 1 <= #[trigger] levels@[k] <= i,
    {
        let node = &nodes_in_dfs_order[i];
        proof {
            assert(ns.take(i + 1).drop_last() =~= ns.take(i as int));
            assert(ns.take(i + 1).last() == *node);
        }
        if node.kind != SimplifyNodeKind::PrimaryInput {
            let ghost fs = string_views(node.fanins@);
            let mut best: Option<i32> = None;
            assert(fs.take(0) =~= Seq::<Seq<char>>::empty());
            for k in 0..node.fanins.len()
                invariant
                    fs == string_views(node.fanins@),
                    forall|q: Seq<char>| levels@.contains_key(q) ==> 1 <= #[trigger] levels@[q] <= i,
                    best == max_known_level(levels@, fs.take(k as int)),
            {
                proof {
                    assert(fs.take(k + 1).drop_last() =~= fs.take(k as int));
                    assert(fs.take(k + 1).last() == node.fanins@[k as int]@);
                }
                match levels.get(node.fanins[k].as_str()) {
                    Some(l) => {
                        let l = *l;
                        best = match best {
                            Some(x) => Some(if x >= l { x } else { l }),
                            None => Some(l),
                        };
                    },
                    None => {},
                }
            }
            assert(fs.take(node.fanins@.len() as int) =~= fs);
            proof {
                lemma_max_known_bound(levels@, fs, i as int);
            }
            let level: i32 = match best {
                Some(x) => x + 1,
                None => 1,
            };
            levels.insert(node.name.clone(), level);
        }
    }
    assert(ns.take(ns.len() as int) =~= ns);
    levels
}


/// What a parse failure says, with its strings as character sequences.
pub enum OptionFailure {
    MissingValue(char),
    Unsupported(Seq<char>),
    InvalidArgument(char, Seq<char>),
    BadConeLevels(Seq<char>),
    BadAccept(Seq<char>),
    BadDontCare(Seq<char>),
    BadMethod(Seq<char>),
    BadFilter(Seq<char>),
}

impl CommandParseError {
    /// The failure this error reports.
    pub open spec fn failure(&self) -> OptionFailure {
        match *self {
            CommandParseError::MissingOptionValue(c) => OptionFailure::MissingValue(c),
            CommandParseError::UnsupportedOption(s) => OptionFailure::Unsupported(s@),
            CommandParseError::InvalidArgument { option, value } => OptionFailure::InvalidArgument(option, value@),
            CommandParseError::InvalidConeLevels(s) => OptionFailure::BadConeLevels(s@),
            CommandParseError::UnknownAccept(s) => OptionFailure::BadAccept(s@),
            CommandParseError::UnknownDontCareType(s) => OptionFailure::BadDontCare(s@),
            CommandParseError::UnknownMethod(s) => OptionFailure::BadMethod(s@),
            CommandParseError::UnknownFilter(s) => OptionFailure::BadFilter(s@),
        }
    }
}

/// Whether option letter `o` is in the option string, and if so whether a
/// ':' after it says that it takes a value.
pub open spec fn option_arity(spec: Seq<char>, o: char) -> Option<bool>
    decreases spec.len(),
{
    if spec.len() == 0 {
        None
    } else if spec[0] == ':' {
        option_arity(spec.drop_first(), o)
    } else if spec[0] == o {
        Some(spec.len() > 1 && spec[1] == ':')
    } else {
        option_arity(spec.drop_first(), o)
    }
}

/// The options of a cluster of option letters (the text after '-'): each
/// letter in turn; a letter taking a value takes the rest of the cluster, or
/// else the next argument (`next`). Gives the options, whether the next
/// argument was taken, and the failure that stopped the scan.
pub open spec fn scan_cluster(spec: Seq<char>, cs: Seq<char>, next: Option<Seq<char>>) -> (Seq<(char, Seq<char>)>, bool, Option<OptionFailure>)
    decreases cs.len(),
{
    if cs.len() == 0 {
        (Seq::empty(), false, None)
    } else {
        let o = cs[0];
        match option_arity(spec, o) {
            None => (Seq::empty(), false, Some(OptionFailure::Unsupported(seq!['-', o]))),
            Some(true) => if cs.len() > 1 {
                (seq![(o, cs.drop_first())], false, None)
            } else {
                match next {
                    Some(v) => (seq![(o, v)], true, None),
                    None => (Seq::empty(), false, Some(OptionFailure::MissingValue(o))),
                }
            },
            Some(false) => {
                let (evs, used, err) = scan_cluster(spec, cs.drop_first(), next);
                (seq![(o, Seq::<char>::empty())] + evs, used, err)
            },
        }
    }
}

/// Option scanning of a command line: arguments starting with '-' (other
/// than "-" itself) are option clusters; the first other argument and all
/// after it are operands; "--" ends the options, making all later arguments
/// operands. Gives the options in order, the operands, and the failure that
/// stopped the scan.
pub open spec fn scan_args(spec: Seq<char>, args: Seq<Seq<char>>) -> (Seq<(char, Seq<char>)>, Seq<Seq<char>>, Option<OptionFailure>)
    decreases args.len(),
{
    if args.len() == 0 {
        (Seq::empty(), Seq::empty(), None)
    } else {
        let a = args[0];
        if a.len() == 0 || a[0] != '-' || a == seq!['-'] {
            (Seq::empty(), args, None)
        } else if a == seq!['-', '-'] {
            (Seq::empty(), args.drop_first(), None)
        } else {
            let (evs, used, err) = scan_cluster(spec, a.drop_first(), if args.len() > 1 { Some(args[1]) } else { None });
            if err is Some {
                (evs, Seq::empty(), err)
            } else {
                let rest = if used && args.len() >= 2 { args.skip(2) } else { args.drop_first() };
                let (evs2, ops, err2) = scan_args(spec, rest);
                (evs + evs2, ops, err2)
            }
        }
    }
}

/// The views of argument slices.
pub open spec fn arg_views(args: Seq<&str>) -> Seq<Seq<char>> {
    Seq::new(args.len(), |i: int| args[i]@)
}

fn option_arity_of(spec: &Vec<char>, o: char) -> (r: Option<bool>)
    ensures
        r == option_arity(spec@, o),
{
    let mut k: usize = 0;
    assert(spec@.skip(0) =~= spec@);
    while k < spec.len()
        invariant
            k <= spec@.len(),
            option_arity(spec@.skip(k as int), o) == option_arity(spec@, o),
        decreases spec@.len() - k,
    {
        let ghost t = spec@.skip(k as int);
        assert(t[0] == spec@[k as int]);
        assert(t.drop_first() =~= spec@.skip(k + 1));
        if k + 1 < spec.len() {
            assert(t[1] == spec@[k + 1]);
        }
        let c = spec[k];
        if c != ':' && c == o {
            return Some(k + 1 < spec.len() && spec[k + 1] == ':');
        }
        k = k + 1;
    }
    None
}

fn dash_option(o: char) -> (r: String)
    ensures
        r@ == seq!['-', o],
{
    let mut s = String::new();
    push_char(&mut s, '-');
    push_char(&mut s, o);
    assert(s@ =~= seq!['-', o]);
    s
}

/// The views of scanned options.
pub open spec fn event_views(evs: Seq<(char, String)>) -> Seq<(char, Seq<char>)> {
    Seq::new(evs.len(), |i: int| (evs[i].0, evs[i].1@))
}

proof fn lemma_scan_cluster_used(spec: Seq<char>, cs: Seq<char>, next: Option<Seq<char>>)
    ensures
        scan_cluster(spec, cs, next).1 ==> next is Some,
    decreases cs.len(),
{
    if cs.len() > 0 {
        lemma_scan_cluster_used(spec, cs.drop_first(), next);
    }
}

proof fn lemma_string_views_push(v: Seq<String>, x: String)
    ensures
        string_views(v.push(x)) == string_views(v).push(x@),
{
    assert(string_views(v.push(x)) =~= string_views(v).push(x@));
}

proof fn lemma_event_views_push(v: Seq<(char, String)>, x: (char, String))
    ensures
        event_views(v.push(x)) == event_views(v).push((x.0, x.1@)),
{
    assert(event_views(v.push(x)) =~= event_views(v).push((x.0, x.1@)));
}

/// The arguments from position `from` on, as strings.
fn collect_args(args: &[&str], from: usize) -> (r: Vec<String>)
    requires
        from <= args@.len(),
    ensures
        string_views(r@) == arg_views(args@).skip(from as int),
{
    let ghost all = arg_views(args@);
    let mut ops: Vec<String> = Vec::new();
    let mut j = from;
    assert(string_views(ops@) =~= all.subrange(from as int, from as int));
    while j < args.len()
        invariant
            from <= j <= args@.len(),
            all == arg_views(args@),
            string_views(ops@) == all.subrange(from as int, j as int),
        decreases args@.len() - j,
    {
        let sj = args[j].to_owned();
        proof {
            lemma_string_views_push(ops@, sj);
        }
        ops.push(sj);
        assert(string_views(ops@) =~= all.subrange(from as int, j + 1));
        j = j + 1;
    }
    assert(all.subrange(from as int, args@.len() as int) =~= all.skip(from as int));
    ops
}

/// Scans the option letters of `a` from position `k` (a cluster after '-'),
/// appending the options found.
fn scan_cluster_from(sp: &Vec<char>, a: &Vec<char>, k: usize, next: Option<&str>, evs: &mut Vec<(char, String)>) -> (r: (bool, Option<CommandParseError>))
    requires
        1 <= k <= a@.len(),
    ensures
        ({
            let nv = match next { Some(t) => Some(t@), None => None::<Seq<char>> };
            let (e, u, f) = scan_cluster(sp@, a@.skip(k as int), nv);
            &&& event_views(final(evs)@) == event_views(old(evs)@) + e
            &&& r.0 == u
            &&& match f {
                Some(x) => r.1 matches Some(err) && err.failure() == x,
                None => r.1 is None,
            }
        }),
    decreases a@.len() - k,
{
    let ghost nv = match next { Some(t) => Some(t@), None => None::<Seq<char>> };
    let ghost t = a@.skip(k as int);
    if k >= a.len() {
        assert(event_views(evs@) + Seq::<(char, Seq<char>)>::empty() =~= event_views(evs@));
        return (false, None);
    }
    assert(t[0] == a@[k as int]);
    assert(t.drop_first() =~= a@.skip(k + 1));
    let o = a[k];
    match option_arity_of(sp, o) {
        None => {
            assert(event_views(evs@) + Seq::<(char, Seq<char>)>::empty() =~= event_views(evs@));
            (false, Some(CommandParseError::UnsupportedOption(dash_option(o))))
        },
        Some(true) => {
            if k + 1 < a.len() {
                let v = slice_chars(a, k + 1, a.len());
                assert(v@ =~= t.drop_first());
                let vs = string_from_chars(&v);
                proof {
                    lemma_event_views_push(evs@, (o, vs));
                }
                evs.push((o, vs));
                assert(event_views(evs@) =~= event_views(old(evs)@) + seq![(o, t.drop_first())]);
                (false, None)
            } else {
                match next {
                    Some(x) => {
                        let vs = x.to_owned();
                        proof {
                            lemma_event_views_push(evs@, (o, vs));
                        }
                        evs.push((o, vs));
                        assert(event_views(evs@) =~= event_views(old(evs)@) + seq![(o, x@)]);
                        (true, None)
                    },
                    None => {
                        assert(event_views(evs@) + Seq::<(char, Seq<char>)>::empty() =~= event_views(evs@));
                        (false, Some(CommandParseError::MissingOptionValue(o)))
                    },
                }
            }
        },
        Some(false) => {
            let ghost before = event_views(evs@);
            let empty = String::new();
            proof {
                lemma_event_views_push(evs@, (o, empty));
            }
            evs.push((o, empty));
            let r = scan_cluster_from(sp, a, k + 1, next, evs);
            proof {
                let (e2, u2, f2) = scan_cluster(sp@, a@.skip(k + 1), nv);
                assert(event_views(evs@) =~= before + (seq![(o, Seq::<char>::empty())] + e2));
            }
            r
        },
    }
}

/// Scans the options of a command line against an option string.
pub(crate) fn scan_options(args: &[&str], spec: &str) -> (r: (Vec<(char, String)>, Vec<String>, Option<CommandParseError>))
    ensures
        ({
            let (evs, ops, err) = scan_args(spec@, arg_views(args@));
            &&& event_views(r.0@) == evs
            &&& string_views(r.1@) == ops
            &&& match err {
                Some(f) => r.2 matches Some(e) && e.failure() == f,
                None => r.2 is None,
            }
        }),
{
    let sp = chars_of(spec);
    let ghost all = arg_views(args@);
    let n = args.len();
    let mut evs: Vec<(char, String)> = Vec::new();
    let mut i: usize = 0;
    assert(all.skip(0) =~= all);
    assert(event_views(evs@) =~= Seq::<(char, Seq<char>)>::empty());
    while i < n
        invariant
            i <= n,
            n == args@.len(),
            all == arg_views(args@),
            sp@ == spec@,
            ({
                let (e0, o0, f0) = scan_args(spec@, all);
                let (e1, o1, f1) = scan_args(spec@, all.skip(i as int));
                e0 == event_views(evs@) + e1 && o0 == o1 && f0 == f1
            }),
        decreases n - i,
    {
        let a = chars_of(args[i]);
        let ghost rest = all.skip(i as int);
        assert(rest[0] == a@);
        assert(rest.drop_first() =~= all.skip(i + 1));
        if a.len() == 0 || a[0] != '-' || a.len() == 1 {
            if a.len() == 1 && a[0] == '-' {
                assert(a@ =~= seq!['-']);
            }
            let ops = collect_args(args, i);
            assert(event_views(evs@) + Seq::<(char, Seq<char>)>::empty() =~= event_views(evs@));
            return (evs, ops, None);
        }
        if a.len() == 2 && a[1] == '-' {
            assert(a@ =~= seq!['-', '-']);
            let ops = collect_args(args, i + 1);
            assert(all.skip(i + 1) =~= rest.drop_first());
            assert(event_views(evs@) + Seq::<(char, Seq<char>)>::empty() =~= event_views(evs@));
            return (evs, ops, None);
        }
        assert(a@ != seq!['-'] && a@ != seq!['-', '-']);
        let next: Option<&str> = if i + 1 < n { Some(args[i + 1]) } else { None };
        assert(rest.len() > 1 ==> rest[1] == all[i + 1]);
        assert(a@.skip(1) =~= a@.drop_first());
        let ghost before = event_views(evs@);
        let (used, err) = scan_cluster_from(&sp, &a, 1, next, &mut evs);
        if let Some(e) = err {
            assert(event_views(evs@) + Seq::<(char, Seq<char>)>::empty() =~= event_views(evs@));
            return (evs, Vec::new(), Some(e));
        }
        proof {
            lemma_scan_cluster_used(spec@, a@.skip(1), if i + 1 < n { Some(all[i + 1]) } else { None });
        }
        if used {
            assert(rest.skip(2) =~= all.skip(i + 2));
            i = i + 2;
        } else {
            i = i + 1;
        }
    }
    assert(all.skip(n as int) =~= Seq::<Seq<char>>::empty());
    assert(event_views(evs@) + Seq::<(char, Seq<char>)>::empty() =~= event_views(evs@));
    (evs, Vec::new(), None)
}


/// `simplify`'s -m values.
pub open spec fn public_method(v: Seq<char>) -> Option<SimMethod> {
    if v == "nocomp"@ {
        Some(SimMethod::NoComp)
    } else if v == "snocomp"@ {
        Some(SimMethod::SNoComp)
    } else if v == "dcsimp"@ {
        Some(SimMethod::DcSimp)
    } else {
        None
    }
}

/// `_simp`'s -m values.
pub open spec fn internal_method(v: Seq<char>) -> Option<SimMethod> {
    if v == "simpcomp"@ {
        Some(SimMethod::SimpComp)
    } else if v == "espresso"@ {
        Some(SimMethod::Espresso)
    } else if v == "exact"@ {
        Some(SimMethod::Exact)
    } else if v == "min_lit"@ {
        Some(SimMethod::ExactLits)
    } else {
        public_method(v)
    }
}

/// `simplify`'s -f values.
pub open spec fn public_filter(v: Seq<char>) -> Option<SimFilter> {
    if v == "exact"@ {
        Some(SimFilter::Exact)
    } else if v == "disj_sup"@ {
        Some(SimFilter::DisjointSupport)
    } else {
        None
    }
}

/// `_simp`'s -f values.
pub open spec fn internal_filter(v: Seq<char>) -> Option<SimFilter> {
    if v == "size"@ {
        Some(SimFilter::Size)
    } else if v == "fdist"@ {
        Some(SimFilter::FirstDistance)
    } else if v == "sdist"@ {
        Some(SimFilter::SecondDistance)
    } else if v == "none"@ {
        Some(SimFilter::Unfiltered)
    } else if v == "all"@ {
        Some(SimFilter::All)
    } else {
        public_filter(v)
    }
}

/// `full_simplify`'s -f values.
pub open spec fn full_filter(v: Seq<char>) -> Option<SimFilter> {
    if v == "level"@ {
        Some(SimFilter::Level)
    } else if v == "all"@ {
        Some(SimFilter::All)
    } else {
        None
    }
}

/// `_simp`'s -a values.
pub open spec fn accept_of(v: Seq<char>) -> Option<SimAccept> {
    if v == "fct_lits"@ {
        Some(SimAccept::FactoredLiterals)
    } else if v == "sop_lits"@ {
        Some(SimAccept::SopLiterals)
    } else if v == "cubes"@ {
        Some(SimAccept::Cubes)
    } else if v == "always"@ {
        Some(SimAccept::Always)
    } else {
        None
    }
}

/// `_simp`'s -d values.
pub open spec fn internal_dctype(v: Seq<char>) -> Option<SimDcType> {
    if v == "none"@ {
        Some(SimDcType::NoDontCare)
    } else if v == "fanin"@ {
        Some(SimDcType::Fanin)
    } else if v == "fanout"@ {
        Some(SimDcType::Fanout)
    } else if v == "inout"@ {
        Some(SimDcType::Inout)
    } else if v == "support"@ {
        Some(SimDcType::SubFanin)
    } else if v == "all"@ {
        Some(SimDcType::All)
    } else {
        None
    }
}

/// The don't-care type after a fanin or fanout level option.
pub open spec fn merged_level_dctype(d: SimDcType) -> SimDcType {
    match d {
        SimDcType::Fanout => SimDcType::Inout,
        SimDcType::Inout => SimDcType::Inout,
        SimDcType::All => SimDcType::All,
        _ => SimDcType::Fanin,
    }
}

/// One option of `simplify` applied to the settings.
pub open spec fn apply_simplify_option(s: SimplifySettings, o: char, v: Seq<char>) -> Result<SimplifySettings, OptionFailure> {
    if o == 'l' {
        Ok(SimplifySettings { dctype: SimDcType::Level, ..s })
    } else if o == 'd' {
        Ok(SimplifySettings { dctype: SimDcType::NoDontCare, ..s })
    } else if o == 'm' {
        match public_method(v) {
            Some(m) => Ok(SimplifySettings { method: m, ..s }),
            None => Err(OptionFailure::BadMethod(v)),
        }
    } else if o == 'f' {
        match public_filter(v) {
            Some(f) => Ok(SimplifySettings { filter: f, ..s }),
            None => Err(OptionFailure::BadFilter(v)),
        }
    } else if o == 'i' {
        match cone_levels(v) {
            Some((a, b)) => Ok(SimplifySettings { dctype: SimDcType::Fanin, fanin_level: a, fanin_fanout_level: b, ..s }),
            None => Err(OptionFailure::BadConeLevels(v)),
        }
    } else if o == 't' {
        Ok(SimplifySettings { trace: true, ..s })
    } else {
        Err(OptionFailure::Unsupported(seq!['-', o]))
    }
}

/// One option of `_simp` applied to the settings.
pub open spec fn apply_internal_option(s: SimplifySettings, o: char, v: Seq<char>) -> Result<SimplifySettings, OptionFailure> {
    if o == 'a' {
        match accept_of(v) {
            Some(a) => Ok(SimplifySettings { accept: a, ..s }),
            None => Err(OptionFailure::BadAccept(v)),
        }
    } else if o == 'd' {
        match internal_dctype(v) {
            Some(d) => Ok(SimplifySettings { dctype: d, ..s }),
            None => Err(OptionFailure::BadDontCare(v)),
        }
    } else if o == 'm' {
        match internal_method(v) {
            Some(m) => Ok(SimplifySettings { method: m, ..s }),
            None => Err(OptionFailure::BadMethod(v)),
        }
    } else if o == 'f' {
        match internal_filter(v) {
            Some(f) => Ok(SimplifySettings { filter: f, ..s }),
            None => Err(OptionFailure::BadFilter(v)),
        }
    } else if o == 'i' {
        Ok(SimplifySettings { fanin_level: atoi_spec(v), dctype: merged_level_dctype(s.dctype), ..s })
    } else if o == 'o' {
        Ok(SimplifySettings { fanin_fanout_level: atoi_spec(v), dctype: merged_level_dctype(s.dctype), ..s })
    } else if o == 't' {
        Ok(SimplifySettings { trace: true, ..s })
    } else if o == 'D' {
        Ok(SimplifySettings { debug: true, ..s })
    } else {
        Err(OptionFailure::Unsupported(seq!['-', o]))
    }
}

/// One option of `full_simplify` applied to the settings.
pub open spec fn apply_full_option(s: FullSettings, o: char, v: Seq<char>) -> Result<FullSettings, OptionFailure> {
    if o == 'o' {
        Ok(FullSettings { ordering: atoi_spec(v), ..s })
    } else if o == 't' {
        Ok(FullSettings { timeout_seconds: atoi_spec(v), ..s })
    } else if o == 'l' {
        Ok(FullSettings { filter: SimFilter::Level, ..s })
    } else if o == 'f' {
        match full_filter(v) {
            Some(f) => Ok(FullSettings { filter: f, ..s }),
            None => Err(OptionFailure::BadFilter(v)),
        }
    } else if o == 'd' {
        Ok(FullSettings { dctype: SimDcType::Fanin, ..s })
    } else if o == 'm' {
        match public_method(v) {
            Some(m) => Ok(FullSettings { method: m, ..s }),
            None => Err(OptionFailure::BadMethod(v)),
        }
    } else if o == 'v' {
        Ok(FullSettings { verbose: true, ..s })
    } else {
        Err(OptionFailure::Unsupported(seq!['-', o]))
    }
}

/// The options of `simplify` (`internal` false) or `_simp` (true) applied
/// in order, stopping at the first failure.
pub open spec fn apply_simplify_options(s: SimplifySettings, evs: Seq<(char, Seq<char>)>, internal: bool) -> Result<SimplifySettings, OptionFailure>
    decreases evs.len(),
{
    if evs.len() == 0 {
        Ok(s)
    } else {
        let step = if internal {
            apply_internal_option(s, evs[0].0, evs[0].1)
        } else {
            apply_simplify_option(s, evs[0].0, evs[0].1)
        };
        match step {
            Err(f) => Err(f),
            Ok(s2) => apply_simplify_options(s2, evs.drop_first(), internal),
        }
    }
}

/// The options of `full_simplify` applied in order.
pub open spec fn apply_full_options(s: FullSettings, evs: Seq<(char, Seq<char>)>) -> Result<FullSettings, OptionFailure>
    decreases evs.len(),
{
    if evs.len() == 0 {
        Ok(s)
    } else {
        match apply_full_option(s, evs[0].0, evs[0].1) {
            Err(f) => Err(f),
            Ok(s2) => apply_full_options(s2, evs.drop_first()),
        }
    }
}

/// The outcome of parsing a command line: the settings after the options,
/// and the operands; an option's failure comes before a scanning failure
/// found later on the line.
pub open spec fn parse_outcome<S>(applied: Result<S, OptionFailure>, ops: Seq<Seq<char>>, err: Option<OptionFailure>) -> Result<(S, Seq<Seq<char>>), OptionFailure> {
    match applied {
        Err(f) => Err(f),
        Ok(s) => match err {
            Some(f) => Err(f),
            None => Ok((s, ops)),
        },
    }
}

/// What `simplify` (`internal` false) or `_simp` (true) makes of its
/// arguments.
pub open spec fn simplify_parse(args: Seq<Seq<char>>, internal: bool) -> Result<(SimplifySettings, Seq<Seq<char>>), OptionFailure> {
    let spec = if internal { "a:d:m:i:o:f:Dt"@ } else { "m:i:f:tdl"@ };
    let defaults = if internal { internal_simp_default_settings() } else { simplify_default_settings() };
    let (evs, ops, err) = scan_args(spec, args);
    parse_outcome(apply_simplify_options(defaults, evs, internal), ops, err)
}

/// What `full_simplify` makes of its arguments.
pub open spec fn full_simplify_parse(args: Seq<Seq<char>>) -> Result<(FullSettings, Seq<Seq<char>>), OptionFailure> {
    let (evs, ops, err) = scan_args("f:o:m:t:vdl"@, args);
    parse_outcome(apply_full_options(full_default_settings(), evs), ops, err)
}

/// The steps of a `simplify` or `_simp` run, `order` telling whether the
/// nodes are ordered first.
pub open spec fn simplify_actions_ok(acts: Seq<SimplifyAction>, s: SimplifySettings, names: Seq<Seq<char>>, order: bool) -> bool {
    let level: int = if s.dctype == SimDcType::Level { 1 } else { 0 };
    let sel = 1 + level;
    &&& acts.len() == sel + 2 + if order { 1int } else { 0int }
    &&& acts[0] == SimplifyAction::ResetGlobalFlags {
        trace: s.trace,
        debug: s.debug,
        fanin_level: s.fanin_level,
        fanin_fanout_level: s.fanin_fanout_level,
    }
    &&& level == 1 ==> acts[1] == SimplifyAction::ComputeNodeLevels
    &&& acts[sel] matches SimplifyAction::SelectNodes(v) && string_views(v@) == names
    &&& order ==> acts[sel + 1] == SimplifyAction::OrderNodesForSimplify
    &&& acts[acts.len() - 1] == SimplifyAction::SimplifyInternalNodes {
        method: s.method,
        dctype: s.dctype,
        accept: s.accept,
        filter: s.filter,
    }
}

/// The plan of a `simplify` or `_simp` run.
pub open spec fn simplify_plan_ok(p: SimplifyCommandPlan, kind: SimplifyCommandKind, s: SimplifySettings, names: Seq<Seq<char>>, order: bool) -> bool {
    &&& p.command == kind
    &&& settings_of(p.options) == s
    &&& string_views(p.options.node_names@) == names
    &&& simplify_actions_ok(p.actions@, s, names, order)
}

/// The steps of a `full_simplify` run.
pub open spec fn full_actions(s: FullSettings) -> Seq<FullSimplifyAction> {
    seq![FullSimplifyAction::ResetGlobalFlags {
        verbose: s.verbose,
        trace: s.trace,
        fanin_level: s.fanin_level,
        fanin_fanout_level: s.fanin_fanout_level,
    }] + (if s.timeout_seconds > 0 {
        seq![FullSimplifyAction::InstallTimeoutHandler { seconds: s.timeout_seconds }]
    } else {
        Seq::empty()
    }) + (if s.filter == SimFilter::Level {
        seq![FullSimplifyAction::ComputeLevelFilter]
    } else {
        Seq::empty()
    }) + seq![
        FullSimplifyAction::CollectPrimaryOutputs,
        FullSimplifyAction::CopyAndAttachDcNetwork,
        if s.ordering == 0 { FullSimplifyAction::OrderPrimaryInputsByDepth } else { FullSimplifyAction::OrderPrimaryInputsByLevel },
        FullSimplifyAction::StartBddManager,
        FullSimplifyAction::ConvertNodesToBdds { low_node_threshold: BDD_NODE_LOW, hard_node_limit: BDD_NODE_LIMIT },
        if s.dctype == SimDcType::Fanin { FullSimplifyAction::SimplifyWithoutOdc } else { FullSimplifyAction::SimplifyWithOdc },
        FullSimplifyAction::CleanupBddCspfAndDcNetwork
    ]
}

fn method_public(v: &str) -> (r: Option<SimMethod>)
    ensures
        r == public_method(v@),
{
    if str_eq(v, "nocomp") {
        Some(SimMethod::NoComp)
    } else if str_eq(v, "snocomp") {
        Some(SimMethod::SNoComp)
    } else if str_eq(v, "dcsimp") {
        Some(SimMethod::DcSimp)
    } else {
        None
    }
}

fn method_internal(v: &str) -> (r: Option<SimMethod>)
    ensures
        r == internal_method(v@),
{
    if str_eq(v, "simpcomp") {
        Some(SimMethod::SimpComp)
    } else if str_eq(v, "espresso") {
        Some(SimMethod::Espresso)
    } else if str_eq(v, "exact") {
        Some(SimMethod::Exact)
    } else if str_eq(v, "min_lit") {
        Some(SimMethod::ExactLits)
    } else {
        method_public(v)
    }
}

fn filter_public(v: &str) -> (r: Option<SimFilter>)
    ensures
        r == public_filter(v@),
{
    if str_eq(v, "exact") {
        Some(SimFilter::Exact)
    } else if str_eq(v, "disj_sup") {
        Some(SimFilter::DisjointSupport)
    } else {
        None
    }
}

fn filter_internal(v: &str) -> (r: Option<SimFilter>)
    ensures
        r == internal_filter(v@),
{
    if str_eq(v, "size") {
        Some(SimFilter::Size)
    } else if str_eq(v, "fdist") {
        Some(SimFilter::FirstDistance)
    } else if str_eq(v, "sdist") {
        Some(SimFilter::SecondDistance)
    } else if str_eq(v, "none") {
        Some(SimFilter::Unfiltered)
    } else if str_eq(v, "all") {
        Some(SimFilter::All)
    } else {
        filter_public(v)
    }
}

fn filter_full(v: &str) -> (r: Option<SimFilter>)
    ensures
        r == full_filter(v@),
{
    if str_eq(v, "level") {
        Some(SimFilter::Level)
    } else if str_eq(v, "all") {
        Some(SimFilter::All)
    } else {
        None
    }
}

fn accept_value(v: &str) -> (r: Option<SimAccept>)
    ensures
        r == accept_of(v@),
{
    if str_eq(v, "fct_lits") {
        Some(SimAccept::FactoredLiterals)
    } else if str_eq(v, "sop_lits") {
        Some(SimAccept::SopLiterals)
    } else if str_eq(v, "cubes") {
        Some(SimAccept::Cubes)
    } else if str_eq(v, "always") {
        Some(SimAccept::Always)
    } else {
        None
    }
}

fn dctype_internal(v: &str) -> (r: Option<SimDcType>)
    ensures
        r == internal_dctype(v@),
{
    if str_eq(v, "none") {
        Some(SimDcType::NoDontCare)
    } else if str_eq(v, "fanin") {
        Some(SimDcType::Fanin)
    } else if str_eq(v, "fanout") {
        Some(SimDcType::Fanout)
    } else if str_eq(v, "inout") {
        Some(SimDcType::Inout)
    } else if str_eq(v, "support") {
        Some(SimDcType::SubFanin)
    } else if str_eq(v, "all") {
        Some(SimDcType::All)
    } else {
        None
    }
}

fn merge_level_dctype(d: SimDcType) -> (r: SimDcType)
    ensures
        r == merged_level_dctype(d),
{
    match d {
        SimDcType::Fanout => SimDcType::Inout,
        SimDcType::Inout => SimDcType::Inout,
        SimDcType::All => SimDcType::All,
        _ => SimDcType::Fanin,
    }
}

fn owned(v: &str) -> (r: String)
    ensures
        r@ == v@,
{
    v.to_owned()
}

/// Applies one `simplify` (or, with `internal`, `_simp`) option.
fn apply_simplify_event(o: &mut SimplifyOptions, c: char, v: &str, internal: bool) -> (r: Result<(), CommandParseError>)
    ensures
        final(o).node_names == old(o).node_names,
        match (if internal { apply_internal_option(settings_of(*old(o)), c, v@) } else { apply_simplify_option(settings_of(*old(o)), c, v@) }) {
            Ok(s) => r is Ok && settings_of(*final(o)) == s,
            Err(f) => r matches Err(e) && e.failure() == f,
        },
{
    if internal {
        if c == 'a' {
            match accept_value(v) {
                Some(a) => { o.accept = a; Ok(()) },
                None => Err(CommandParseError::UnknownAccept(owned(v))),
            }
        } else if c == 'd' {
            match dctype_internal(v) {
                Some(d) => { o.dctype = d; Ok(()) },
                None => Err(CommandParseError::UnknownDontCareType(owned(v))),
            }
        } else if c == 'm' {
            match method_internal(v) {
                Some(m) => { o.method = m; Ok(()) },
                None => Err(CommandParseError::UnknownMethod(owned(v))),
            }
        } else if c == 'f' {
            match filter_internal(v) {
                Some(f) => { o.filter = f; Ok(()) },
                None => Err(CommandParseError::UnknownFilter(owned(v))),
            }
        } else if c == 'i' {
            o.fanin_level = c_atoi(&chars_of(v));
            o.dctype = merge_level_dctype(o.dctype);
            Ok(())
        } else if c == 'o' {
            o.fanin_fanout_level = c_atoi(&chars_of(v));
            o.dctype = merge_level_dctype(o.dctype);
            Ok(())
        } else if c == 't' {
            o.trace = true;
            Ok(())
        } else if c == 'D' {
            o.debug = true;
            Ok(())
        } else {
            Err(CommandParseError::UnsupportedOption(dash_option(c)))
        }
    } else {
        if c == 'l' {
            o.dctype = SimDcType::Level;
            Ok(())
        } else if c == 'd' {
            o.dctype = SimDcType::NoDontCare;
            Ok(())
        } else if c == 'm' {
            match method_public(v) {
                Some(m) => { o.method = m; Ok(()) },
                None => Err(CommandParseError::UnknownMethod(owned(v))),
            }
        } else if c == 'f' {
            match filter_public(v) {
                Some(f) => { o.filter = f; Ok(()) },
                None => Err(CommandParseError::UnknownFilter(owned(v))),
            }
        } else if c == 'i' {
            match get_cone_levels(v) {
                Some((a, b)) => {
                    o.dctype = SimDcType::Fanin;
                    o.fanin_level = a;
                    o.fanin_fanout_level = b;
                    Ok(())
                },
                None => Err(CommandParseError::InvalidConeLevels(owned(v))),
            }
        } else if c == 't' {
            o.trace = true;
            Ok(())
        } else {
            Err(CommandParseError::UnsupportedOption(dash_option(c)))
        }
    }
}

/// Applies one `full_simplify` option.
fn apply_full_event(o: &mut FullSimplifyOptions, c: char, v: &str) -> (r: Result<(), CommandParseError>)
    ensures
        final(o).ignored_operands == old(o).ignored_operands,
        match apply_full_option(full_settings_of(*old(o)), c, v@) {
            Ok(s) => r is Ok && full_settings_of(*final(o)) == s,
            Err(f) => r matches Err(e) && e.failure() == f,
        },
{
    if c == 'o' {
        o.ordering = c_atoi(&chars_of(v));
        Ok(())
    } else if c == 't' {
        o.timeout_seconds = c_atoi(&chars_of(v));
        Ok(())
    } else if c == 'l' {
        o.filter = SimFilter::Level;
        Ok(())
    } else if c == 'f' {
        match filter_full(v) {
            Some(f) => { o.filter = f; Ok(()) },
            None => Err(CommandParseError::UnknownFilter(owned(v))),
        }
    } else if c == 'd' {
        o.dctype = SimDcType::Fanin;
        Ok(())
    } else if c == 'm' {
        match method_public(v) {
            Some(m) => { o.method = m; Ok(()) },
            None => Err(CommandParseError::UnknownMethod(owned(v))),
        }
    } else if c == 'v' {
        o.verbose = true;
        Ok(())
    } else {
        Err(CommandParseError::UnsupportedOption(dash_option(c)))
    }
}


/// The failure an optional error reports.
pub open spec fn failure_opt(e: Option<CommandParseError>) -> Option<OptionFailure> {
    match e {
        Some(x) => Some(x.failure()),
        None => None,
    }
}

fn copy_strings(v: &Vec<String>) -> (r: Vec<String>)
    ensures
        string_views(r@) == string_views(v@),
{
    let mut out: Vec<String> = Vec::new();
    for i in 0..v.len()
        invariant
            string_views(out@) == string_views(v@).take(i as int),
    {
        let c = v[i].clone();
        proof {
            lemma_string_views_push(out@, c);
        }
        out.push(c);
        assert(string_views(out@) =~= string_views(v@).take(i + 1));
    }
    assert(string_views(v@).take(v@.len() as int) =~= string_views(v@));
    out
}

fn plan_simplify_command(command: SimplifyCommandKind, options: SimplifyOptions, order_nodes: bool) -> (r: SimplifyCommandPlan)
    ensures
        simplify_plan_ok(r, command, settings_of(options), string_views(options.node_names@), order_nodes),
{
    let mut actions: Vec<SimplifyAction> = Vec::new();
    actions.push(SimplifyAction::ResetGlobalFlags {
        trace: options.trace,
        debug: options.debug,
        fanin_level: options.fanin_level,
        fanin_fanout_level: options.fanin_fanout_level,
    });
    if options.dctype == SimDcType::Level {
        actions.push(SimplifyAction::ComputeNodeLevels);
    }
    let names = copy_strings(&options.node_names);
    actions.push(SimplifyAction::SelectNodes(names));
    if order_nodes {
        actions.push(SimplifyAction::OrderNodesForSimplify);
    }
    actions.push(SimplifyAction::SimplifyInternalNodes {
        method: options.method,
        dctype: options.dctype,
        accept: options.accept,
        filter: options.filter,
    });
    SimplifyCommandPlan { command, options, actions }
}

fn plan_full_simplify_command(options: FullSimplifyOptions) -> (r: FullSimplifyCommandPlan)
    ensures
        r.options == options,
        r.actions@ == full_actions(full_settings_of(options)),
{
    let mut actions: Vec<FullSimplifyAction> = Vec::new();
    actions.push(FullSimplifyAction::ResetGlobalFlags {
        verbose: options.verbose,
        trace: options.trace,
        fanin_level: options.fanin_level,
        fanin_fanout_level: options.fanin_fanout_level,
    });
    if options.timeout_seconds > 0 {
        actions.push(FullSimplifyAction::InstallTimeoutHandler { seconds: options.timeout_seconds });
    }
    if options.filter == SimFilter::Level {
        actions.push(FullSimplifyAction::ComputeLevelFilter);
    }
    actions.push(FullSimplifyAction::CollectPrimaryOutputs);
    actions.push(FullSimplifyAction::CopyAndAttachDcNetwork);
    if options.ordering == 0 {
        actions.push(FullSimplifyAction::OrderPrimaryInputsByDepth);
    } else {
        actions.push(FullSimplifyAction::OrderPrimaryInputsByLevel);
    }
    actions.push(FullSimplifyAction::StartBddManager);
    actions.push(FullSimplifyAction::ConvertNodesToBdds { low_node_threshold: BDD_NODE_LOW, hard_node_limit: BDD_NODE_LIMIT });
    if options.dctype == SimDcType::Fanin {
        actions.push(FullSimplifyAction::SimplifyWithoutOdc);
    } else {
        actions.push(FullSimplifyAction::SimplifyWithOdc);
    }
    actions.push(FullSimplifyAction::CleanupBddCspfAndDcNetwork);
    assert(actions@ =~= full_actions(full_settings_of(options)));
    FullSimplifyCommandPlan { options, actions }
}

/// Parses `simplify` (`internal` false) or `_simp` (true) options into
/// settings and node names.
fn parse_simplify_options(args: &[&str], internal: bool) -> (r: Result<SimplifyOptions, CommandParseError>)
    ensures
        match simplify_parse(arg_views(args@), internal) {
            Ok((s, ops)) => r matches Ok(o) && settings_of(o) == s && string_views(o.node_names@) == ops,
            Err(f) => r matches Err(e) && e.failure() == f,
        },
{
    let mut options = if internal { SimplifyOptions::internal_simp_defaults() } else { SimplifyOptions::simplify_defaults() };
    let scanned = if internal { scan_options(args, "a:d:m:i:o:f:Dt") } else { scan_options(args, "m:i:f:tdl") };
    let (evs, ops, err) = scanned;
    let ghost ev = event_views(evs@);
    let ghost defaults = settings_of(options);
    assert(ev.skip(0) =~= ev);
    assert(simplify_parse(arg_views(args@), internal) == parse_outcome(apply_simplify_options(defaults, ev, internal), string_views(ops@), failure_opt(err)));
    for k in 0..evs.len()
        invariant
            ev == event_views(evs@),
            apply_simplify_options(defaults, ev, internal) == apply_simplify_options(settings_of(options), ev.skip(k as int), internal),
            simplify_parse(arg_views(args@), internal) == parse_outcome(apply_simplify_options(defaults, ev, internal), string_views(ops@), failure_opt(err)),
    {
        assert(ev.skip(k as int)[0] == (evs@[k as int].0, evs@[k as int].1@));
        assert(ev.skip(k as int).drop_first() =~= ev.skip(k + 1));
        let res = apply_simplify_event(&mut options, evs[k].0, evs[k].1.as_str(), internal);
        if let Err(e) = res {
            return Err(e);
        }
    }
    assert(ev.skip(evs@.len() as int) =~= Seq::<(char, Seq<char>)>::empty());
    if let Some(e) = err {
        return Err(e);
    }
    options.node_names = ops;
    Ok(options)
}

/// Parses the arguments of `simplify` into its plan.
pub fn parse_simplify_args(args: &[&str]) -> (r: Result<SimplifyCommandPlan, CommandParseError>)
    ensures
        match simplify_parse(arg_views(args@), false) {
            Ok((s, ops)) => r matches Ok(p) && simplify_plan_ok(p, SimplifyCommandKind::Simplify, s, ops, true),
            Err(f) => r matches Err(e) && e.failure() == f,
        },
{
    let options = parse_simplify_options(args, false)?;
    Ok(plan_simplify_command(SimplifyCommandKind::Simplify, options, true))
}

/// Parses the arguments of `_simp` into its plan.
pub fn parse_internal_simp_args(args: &[&str]) -> (r: Result<SimplifyCommandPlan, CommandParseError>)
    ensures
        match simplify_parse(arg_views(args@), true) {
            Ok((s, ops)) => r matches Ok(p) && simplify_plan_ok(p, SimplifyCommandKind::InternalSimp, s, ops, false),
            Err(f) => r matches Err(e) && e.failure() == f,
        },
{
    let options = parse_simplify_options(args, true)?;
    Ok(plan_simplify_command(SimplifyCommandKind::InternalSimp, options, false))
}

/// Parses the arguments of `full_simplify` into its plan.
pub fn parse_full_simplify_args(args: &[&str]) -> (r: Result<FullSimplifyCommandPlan, CommandParseError>)
    ensures
        match full_simplify_parse(arg_views(args@)) {
            Ok((s, ops)) => r matches Ok(p) && full_settings_of(p.options) == s
                && string_views(p.options.ignored_operands@) == ops && p.actions@ == full_actions(s),
            Err(f) => r matches Err(e) && e.failure() == f,
        },
{
    let mut options = FullSimplifyOptions::default();
    let (evs, ops, err) = scan_options(args, "f:o:m:t:vdl");
    let ghost ev = event_views(evs@);
    let ghost defaults = full_settings_of(options);
    assert(ev.skip(0) =~= ev);
    assert(full_simplify_parse(arg_views(args@)) == parse_outcome(apply_full_options(defaults, ev), string_views(ops@), failure_opt(err)));
    for k in 0..evs.len()
        invariant
            ev == event_views(evs@),
            apply_full_options(defaults, ev) == apply_full_options(full_settings_of(options), ev.skip(k as int)),
            full_simplify_parse(arg_views(args@)) == parse_outcome(apply_full_options(defaults, ev), string_views(ops@), failure_opt(err)),
    {
        assert(ev.skip(k as int)[0] == (evs@[k as int].0, evs@[k as int].1@));
        assert(ev.skip(k as int).drop_first() =~= ev.skip(k + 1));
        let res = apply_full_event(&mut options, evs[k].0, evs[k].1.as_str());
        if let Err(e) = res {
            return Err(e);
        }
    }
    assert(ev.skip(evs@.len() as int) =~= Seq::<(char, Seq<char>)>::empty());
    if let Some(e) = err {
        return Err(e);
    }
    options.ignored_operands = ops;
    Ok(plan_full_simplify_command(options))
}

/// Parses a simplify command line by its command name.
pub fn parse_simplify_command(command_name: &str, args: &[&str]) -> (r: Result<SimplifyCommand, CommandParseError>)
    ensures
        command_name@ == "simplify"@ ==> match simplify_parse(arg_views(args@), false) {
            Ok((s, ops)) => r matches Ok(SimplifyCommand::Simplify(p)) && simplify_plan_ok(p, SimplifyCommandKind::Simplify, s, ops, true),
            Err(f) => r matches Err(e) && e.failure() == f,
        },
        command_name@ == "_simp"@ ==> match simplify_parse(arg_views(args@), true) {
            Ok((s, ops)) => r matches Ok(SimplifyCommand::InternalSimp(p)) && simplify_plan_ok(p, SimplifyCommandKind::InternalSimp, s, ops, false),
            Err(f) => r matches Err(e) && e.failure() == f,
        },
        command_name@ == "full_simplify"@ ==> match full_simplify_parse(arg_views(args@)) {
            Ok((s, ops)) => r matches Ok(SimplifyCommand::FullSimplify(p)) && full_settings_of(p.options) == s
                && string_views(p.options.ignored_operands@) == ops && p.actions@ == full_actions(s),
            Err(f) => r matches Err(e) && e.failure() == f,
        },
        command_name@ != "simplify"@ && command_name@ != "_simp"@ && command_name@ != "full_simplify"@
            ==> (r matches Err(e) && e.failure() == OptionFailure::Unsupported(command_name@)),
{
    proof {
        reveal_strlit("simplify");
        reveal_strlit("_simp");
        reveal_strlit("full_simplify");
        assert("simplify"@.len() == 8);
        assert("_simp"@.len() == 5);
        assert("full_simplify"@.len() == 13);
    }
    if str_eq(command_name, "simplify") {
        match parse_simplify_args(args) {
            Ok(p) => Ok(SimplifyCommand::Simplify(p)),
            Err(e) => Err(e),
        }
    } else if str_eq(command_name, "_simp") {
        match parse_internal_simp_args(args) {
            Ok(p) => Ok(SimplifyCommand::InternalSimp(p)),
            Err(e) => Err(e),
        }
    } else if str_eq(command_name, "full_simplify") {
        match parse_full_simplify_args(args) {
            Ok(p) => Ok(SimplifyCommand::FullSimplify(p)),
            Err(e) => Err(e),
        }
    } else {
        Err(CommandParseError::UnsupportedOption(owned(command_name)))
    }
}


/// The network operations behind the simplify commands, implemented by the
/// users of the commands; each defaults to doing nothing.
pub trait SimplifyCommandBackend {
    fn simplify(&mut self, plan: &SimplifyCommandPlan) -> Result<(), SimplifyCommandError> {
        Ok(())
    }

    fn internal_simp(&mut self, plan: &SimplifyCommandPlan) -> Result<(), SimplifyCommandError> {
        Ok(())
    }

    fn full_simplify(&mut self, plan: &FullSimplifyCommandPlan) -> Result<(), SimplifyCommandError> {
        Ok(())
    }
}

impl SimplifyCommandBackend for () {}

/// Runs a parsed command on the backend: each command kind goes to its own
/// backend operation with the command's plan; what that operation returns is
/// returned.
pub fn execute_simplify_command_with_backend<N: SimplifyCommandBackend>(network: &mut N, command: &SimplifyCommand) -> (r: Result<(), SimplifyCommandError>)
    ensures
        command matches SimplifyCommand::Simplify(p) ==> exists|a: &mut N| *a == *old(network) && *final(a) == *final(network)
            && call_ensures(N::simplify, (a, p), r),
        command matches SimplifyCommand::InternalSimp(p) ==> exists|a: &mut N| *a == *old(network) && *final(a) == *final(network)
            && call_ensures(N::internal_simp, (a, p), r),
        command matches SimplifyCommand::FullSimplify(p) ==> exists|a: &mut N| *a == *old(network) && *final(a) == *final(network)
            && call_ensures(N::full_simplify, (a, p), r),
{
    match command {
        SimplifyCommand::Simplify(plan) => {
            let f = N::simplify;
            f(network, plan)
        },
        SimplifyCommand::InternalSimp(plan) => {
            let f = N::internal_simp;
            f(network, plan)
        },
        SimplifyCommand::FullSimplify(plan) => {
            let f = N::full_simplify;
            f(network, plan)
        },
    }
}

/// Runs a parsed command on the network's backend.
pub fn execute_simplify_command<N: SimplifyCommandBackend>(network: &mut N, command: &SimplifyCommand) -> (r: Result<(), SimplifyCommandError>)
    ensures
        command matches SimplifyCommand::Simplify(p) ==> exists|a: &mut N| *a == *old(network) && *final(a) == *final(network)
            && call_ensures(N::simplify, (a, p), r),
        command matches SimplifyCommand::InternalSimp(p) ==> exists|a: &mut N| *a == *old(network) && *final(a) == *final(network)
            && call_ensures(N::internal_simp, (a, p), r),
        command matches SimplifyCommand::FullSimplify(p) ==> exists|a: &mut N| *a == *old(network) && *final(a) == *final(network)
            && call_ensures(N::full_simplify, (a, p), r),
{
    execute_simplify_command_with_backend(network, command)
}

} // verus!
