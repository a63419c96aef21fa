//! One combinational step of STG simulation: evaluating a single-cube AND
//! gate over three-valued fanin values and recording the result per cycle.

use vstd::prelude::*;

verus! {

/// Number of simulation cycles a node keeps values for.
pub const MAX_ELENGTH: usize = 36;

/// Flag bits kept per node and cycle.
pub const SCHEDULED: u8 = 1;
pub const ALL_ASSIGNED: u8 = 2;
pub const MARKED: u8 = 4;
pub const CHANGED: u8 = 8;

/// A three-valued logic value.
#[derive(Clone, Copy, Debug, Eq, PartialEq, Structural)]
pub enum LogicValue {
    Zero,
    One,
    Unknown,
}

/// The value that fanin `i` must have for the cube to be satisfied.
pub open spec fn cube_literal(cube: u64, i: nat) -> LogicValue {
    if (cube >> i) & 1u64 != 0 { LogicValue::One } else { LogicValue::Zero }
}

/// Whether some known fanin value contradicts its literal.
pub open spec fn has_conflict(cube: u64, values: Seq<LogicValue>) -> bool {
    exists|i: int| 0 <= i < values.len() && values[i] != LogicValue::Unknown && values[i] != cube_literal(cube, i as nat)
}

/// The value of the single-cube AND of the fanins.
pub open spec fn cube_and_value(cube: u64, values: Seq<LogicValue>) -> LogicValue {
    if has_conflict(cube, values) {
        LogicValue::Zero
    } else if exists|i: int| 0 <= i < values.len() && values[i] == LogicValue::Unknown {
        LogicValue::Unknown
    } else {
        LogicValue::One
    }
}

/// The number the value has as a cell of the simulation tables.
pub open spec fn logic_code(v: LogicValue) -> u8 {
    match v {
        LogicValue::Zero => 0,
        LogicValue::One => 1,
        LogicValue::Unknown => 2,
    }
}

impl LogicValue {
    pub fn from_bool(value: bool) -> (r: Self)
        ensures
            r == if value { LogicValue::One } else { LogicValue::Zero },
    {
        if value { LogicValue::One } else { LogicValue::Zero }
    }

    pub fn as_c_value(self) -> (r: u8)
        ensures
            r == logic_code(self),
    {
        match self {
            LogicValue::Zero => 0,
            LogicValue::One => 1,
            LogicValue::Unknown => 2,
        }
    }

    /// The character used for the value in state encodings.
    pub fn state_char(self) -> (r: char)
        ensures
            r == match self {
                LogicValue::Zero => '0',
                LogicValue::One => '1',
                LogicValue::Unknown => '-',
            },
    {
        match self {
            LogicValue::Zero => '0',
            LogicValue::One => '1',
            LogicValue::Unknown => '-',
        }
    }

    /// The value with the given number, if it is 0, 1 or 2.
    pub fn from_c_value(value: u8) -> (r: Result<Self, StgScSimError>)
        ensures
            value <= 2 ==> r is Ok && logic_code(r->Ok_0) == value,
            value > 2 ==> r == Err::<Self, StgScSimError>(StgScSimError::InvalidLogicValue(value)),
    {
        if value == 0 {
            Ok(LogicValue::Zero)
        } else if value == 1 {
            Ok(LogicValue::One)
        } else if value == 2 {
            Ok(LogicValue::Unknown)
        } else {
            Err(StgScSimError::InvalidLogicValue(value))
        }
    }
}

impl vstd::std_specs::convert::TryFromSpecImpl<u8> for LogicValue {
    open spec fn obeys_try_from_spec() -> bool {
        true
    }

    open spec fn try_from_spec(v: u8) -> Result<Self, StgScSimError> {
        if v == 0 {
            Ok(LogicValue::Zero)
        } else if v == 1 {
            Ok(LogicValue::One)
        } else if v == 2 {
            Ok(LogicValue::Unknown)
        } else {
            Err(StgScSimError::InvalidLogicValue(v))
        }
    }
}

impl TryFrom<u8> for LogicValue {
    type Error = StgScSimError;

    fn try_from(value: u8) -> (r: Result<Self, Self::Error>) {
        LogicValue::from_c_value(value)
    }
}

/// Per-node simulation data: the packed cube, and per cycle a value and flags.
#[derive(Clone, Debug, Eq, PartialEq)]
pub struct StgNodeData {
    pub cube: u64,
    pub value: [LogicValue; 36],
    pub jflag: [u8; 36],
    pub level: usize,
}

/// A layer of the circuit model that the network-level scheduler needs.
#[derive(Clone, Copy, Debug, Eq, PartialEq)]
pub struct PortDependency {
    pub bead: &'static str,
    pub c_file: &'static str,
    pub reason: &'static str,
}

/// Errors of the simulation step.
#[derive(Debug, Eq, PartialEq)]
pub enum StgScSimError {
    InvalidCycleId { cid: usize, max_exclusive: usize },
    InvalidLogicValue(u8),
    MissingNetworkNodePorts { dependencies: Vec<PortDependency> },
}

fn check_cid(cid: usize) -> (r: Result<(), StgScSimError>)
    ensures
        cid < MAX_ELENGTH ==> r is Ok,
        cid >= MAX_ELENGTH ==> r == Err::<(), StgScSimError>(
            StgScSimError::InvalidCycleId { cid, max_exclusive: MAX_ELENGTH }),
{
    if cid < MAX_ELENGTH {
        Ok(())
    } else {
        Err(StgScSimError::InvalidCycleId { cid, max_exclusive: MAX_ELENGTH })
    }
}

impl StgNodeData {
    /// Node data for a cube, every cycle's value unknown and no flags.
    pub fn with_cube(cube: u64) -> (r: Self)
        ensures
            r.cube == cube,
            r.value@ == Seq::new(36, |i: int| LogicValue::Unknown),
            r.jflag@ == Seq::new(36, |i: int| 0u8),
            r.level == 0,
    {
        let r = StgNodeData {
            cube,
            value: [LogicValue::Unknown; 36],
            jflag: [0u8; 36],
            level: 0,
        };
        assert(r.value@ =~= Seq::new(36, |i: int| LogicValue::Unknown));
        assert(r.jflag@ =~= Seq::new(36, |i: int| 0u8));
        r
    }

    /// The value in cycle `cid`.
    pub fn value_at(&self, cid: usize) -> (r: Result<LogicValue, StgScSimError>)
        ensures
            cid < MAX_ELENGTH ==> r == Ok::<LogicValue, StgScSimError>(self.value@[cid as int]),
            cid >= MAX_ELENGTH ==> r == Err::<LogicValue, StgScSimError>(
                StgScSimError::InvalidCycleId { cid, max_exclusive: MAX_ELENGTH }),
    {
        check_cid(cid)?;
        Ok(self.value[cid])
    }

    /// The flags in cycle `cid`.
    pub fn flags_at(&self, cid: usize) -> (r: Result<u8, StgScSimError>)
        ensures
            cid < MAX_ELENGTH ==> r == Ok::<u8, StgScSimError>(self.jflag@[cid as int]),
            cid >= MAX_ELENGTH ==> r == Err::<u8, StgScSimError>(
                StgScSimError::InvalidCycleId { cid, max_exclusive: MAX_ELENGTH }),
    {
        check_cid(cid)?;
        Ok(self.jflag[cid])
    }
}

/// The layers the network-level scheduler walks, none of which this library holds.
pub open spec fn scheduler_dependencies() -> Seq<PortDependency> {
    seq![
        PortDependency {
            bead: "levelization",
            c_file: "level_c",
            reason: "creates the node data records, cube literals, levels, and varying node order",
        },
        PortDependency {
            bead: "enumeration-globals",
            c_file: "senum_main",
            reason: "owns the simulation state shared across the enumeration",
        },
        PortDependency {
            bead: "network",
            c_file: "network",
            reason: "provides network traversal for primary inputs and fanout scheduling",
        },
        PortDependency {
            bead: "fanin-fanout",
            c_file: "node",
            reason: "provides node fanin/fanout relationships",
        },
        PortDependency {
            bead: "node-storage",
            c_file: "node",
            reason: "provides node kinds and node storage",
        },
    ]
}

/// The layers the network-level scheduler needs.
pub fn blocked_dependencies() -> (r: Vec<PortDependency>)
    ensures
        r@ == scheduler_dependencies(),
{
    let r = vec![
        PortDependency {
            bead: "levelization",
            c_file: "level_c",
            reason: "creates the node data records, cube literals, levels, and varying node order",
        },
        PortDependency {
            bead: "enumeration-globals",
            c_file: "senum_main",
            reason: "owns the simulation state shared across the enumeration",
        },
        PortDependency {
            bead: "network",
            c_file: "network",
            reason: "provides network traversal for primary inputs and fanout scheduling",
        },
        PortDependency {
            bead: "fanin-fanout",
            c_file: "node",
            reason: "provides node fanin/fanout relationships",
        },
        PortDependency {
            bead: "node-storage",
            c_file: "node",
            reason: "provides node kinds and node storage",
        },
    ];
    assert(r@ =~= scheduler_dependencies());
    r
}

/// The literal of fanin `fanin_index` in the cube.
pub fn required_value_for_fanin(cube: u64, fanin_index: usize) -> (r: LogicValue)
    requires
        fanin_index < 64,
    ensures
        r == cube_literal(cube, fanin_index as nat),
{
    LogicValue::from_bool(((cube >> (fanin_index as u64)) & 1) != 0)
}

/// The single-cube AND of the fanin values: 0 when a known value contradicts
/// its literal, otherwise unknown when some value is unknown, otherwise 1.
pub fn evaluate_single_cube_and(cube: u64, fanin_values: &[LogicValue]) -> (r: LogicValue)
    requires
        fanin_values@.len() <= 64 || has_conflict(cube, fanin_values@.take(64)),
    ensures
        r == cube_and_value(cube, fanin_values@),
{
    let mut covered = LogicValue::One;
    let n = fanin_values.len();
    for i in 0..n
        invariant
            n == fanin_values@.len(),
            n <= 64 || has_conflict(cube, fanin_values@.take(64)),
            forall|j: int| 0 <= j < i ==> !(fanin_values@[j] != LogicValue::Unknown
                && fanin_values@[j] != cube_literal(cube, j as nat)),
            covered == LogicValue::Unknown <==> exists|j: int| 0 <= j < i && fanin_values@[j] == LogicValue::Unknown,
            covered == LogicValue::One || covered == LogicValue::Unknown,
    {
        proof {
            if i >= 64 {
                let j = choose|j: int| 0 <= j < fanin_values@.take(64).len() && fanin_values@.take(64)[j] != LogicValue::Unknown
                    && fanin_values@.take(64)[j] != cube_literal(cube, j as nat);
                assert(fanin_values@.take(64)[j] == fanin_values@[j]);
            }
        }
        let literal = required_value_for_fanin(cube, i);
        let value = fanin_values[i];
        match value {
            LogicValue::Unknown => {
                covered = LogicValue::Unknown;
            },
            _ => {
                if value != literal {
                    assert(has_conflict(cube, fanin_values@));
                    return LogicValue::Zero;
                }
            },
        }
    }
    covered
}

/// Evaluates the node's cube in cycle `cid`, stores the value and, when it
/// changed, sets the `CHANGED` flag of that cycle.
pub fn evaluate_node(node: &mut StgNodeData, cid: usize, fanin_values: &[LogicValue]) -> (r: Result<LogicValue, StgScSimError>)
    requires
        fanin_values@.len() <= 64 || has_conflict(old(node).cube, fanin_values@.take(64)),
    ensures
        cid >= MAX_ELENGTH ==> r == Err::<LogicValue, StgScSimError>(
            StgScSimError::InvalidCycleId { cid, max_exclusive: MAX_ELENGTH }) && *final(node) == *old(node),
        cid < MAX_ELENGTH ==> {
            let v = cube_and_value(old(node).cube, fanin_values@);
            &&& r == Ok::<LogicValue, StgScSimError>(v)
            &&& final(node).cube == old(node).cube
            &&& final(node).level == old(node).level
            &&& final(node).value@ == old(node).value@.update(cid as int, v)
            &&& final(node).jflag@ == if old(node).value@[cid as int] != v {
                old(node).jflag@.update(cid as int, old(node).jflag@[cid as int] | CHANGED)
            } else {
                old(node).jflag@
            }
        },
{
    check_cid(cid)?;
    let covered = evaluate_single_cube_and(node.cube, fanin_values);
    if node.value[cid] != covered {
        node.value[cid] = covered;
        node.jflag[cid] = node.jflag[cid] | CHANGED;
    }
    Ok(covered)
}

/// The network-level scheduler: reports the layers it needs.
pub fn stg_sc_sim(cid: usize) -> (r: Result<(), StgScSimError>)
    ensures
        r matches Err(StgScSimError::MissingNetworkNodePorts { dependencies }) && dependencies@ == scheduler_dependencies(),
{
    Err(StgScSimError::MissingNetworkNodePorts { dependencies: blocked_dependencies() })
}

} // verus!
