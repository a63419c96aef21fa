//! The STG commands: option parsing and plans for `stg_extract`,
//! `stg_to_network`, `state_assign` and `state_minimize`, one-hot state
//! encoding, and the encoded two-level (Espresso "fr") form of a graph. The
//! commands that rewrite a network need the network, latch and Espresso
//! layers and report `ComStgError::Blocked`.

use vstd::prelude::*;
use crate::stg::{StateId, Stg, StgError, Transition};
use crate::text::{chars_of, push_char, push_decimal, push_str, decimal};
use crate::numparse::{parse_i32_chars, parse_i32_spec};

verus! {

pub const STG_LATCH_LIMIT: usize = 16;
pub const STG_CHECK_EDGE_LIMIT: usize = 500;

pub const STG_EXTRACT_USAGE: &'static str = "Usage: stg_extract [-a] [-e] [-c]\n\t-a: find for all possible start states\n\t    (only if there are no more than 16 latches)\n\t-e: extract even if the number of latches exceeds 16\n\t-c: always check that the network covers the STG\n";
pub const STG_TO_NETWORK_USAGE: &'static str = "usage: stg_to_network [-e option]\n";
pub const STATE_ASSIGN_USAGE: &'static str = "usage: state_assign program_name options\n";
pub const STATE_MINIMIZE_USAGE: &'static str = "usage: state_mininimize program_name options\n";

/// Whether the network-level commands can run here: they cannot.
#[derive(Clone, Copy, Debug, Eq, PartialEq, Structural)]
pub enum ComStgPortDisposition {
    BlockedByMissingCommandNetworkIoAndEspressoApis,
}

pub fn com_stg_port_disposition() -> (r: ComStgPortDisposition)
    ensures
        r == ComStgPortDisposition::BlockedByMissingCommandNetworkIoAndEspressoApis,
{
    ComStgPortDisposition::BlockedByMissingCommandNetworkIoAndEspressoApis
}

pub fn com_stg_port_is_blocked() -> (r: bool)
    ensures
        r,
{
    com_stg_port_disposition() == ComStgPortDisposition::BlockedByMissingCommandNetworkIoAndEspressoApis
}

#[derive(Clone, Copy, Debug, Eq, PartialEq, Structural)]
pub enum StgCommandKind {
    StgExtract,
    StgToNetwork,
    StateAssign,
    StateMinimize,
    StgCover,
    OneHot,
    StgDumpGraph,
}

#[derive(Clone, Copy, Debug, Eq, PartialEq)]
pub struct StgCommandRegistration {
    pub name: &'static str,
    pub kind: StgCommandKind,
    pub changes_network: bool,
}

/// The STG commands: name, kind, and whether they change the network.
pub open spec fn spec_stg_commands() -> Seq<StgCommandRegistration> {
    seq![
        StgCommandRegistration { name: "stg_extract", kind: StgCommandKind::StgExtract, changes_network: true },
        StgCommandRegistration { name: "stg_to_network", kind: StgCommandKind::StgToNetwork, changes_network: true },
        StgCommandRegistration { name: "state_assign", kind: StgCommandKind::StateAssign, changes_network: true },
        StgCommandRegistration { name: "state_minimize", kind: StgCommandKind::StateMinimize, changes_network: true },
        StgCommandRegistration { name: "stg_cover", kind: StgCommandKind::StgCover, changes_network: false },
        StgCommandRegistration { name: "one_hot", kind: StgCommandKind::OneHot, changes_network: true },
        StgCommandRegistration { name: "_stg_dump_graph", kind: StgCommandKind::StgDumpGraph, changes_network: false },
    ]
}

pub fn stg_command_registrations() -> (r: Vec<StgCommandRegistration>)
    ensures
        r@ == spec_stg_commands(),
{
    let r = vec![
        StgCommandRegistration { name: "stg_extract", kind: StgCommandKind::StgExtract, changes_network: true },
        StgCommandRegistration { name: "stg_to_network", kind: StgCommandKind::StgToNetwork, changes_network: true },
        StgCommandRegistration { name: "state_assign", kind: StgCommandKind::StateAssign, changes_network: true },
        StgCommandRegistration { name: "state_minimize", kind: StgCommandKind::StateMinimize, changes_network: true },
        StgCommandRegistration { name: "stg_cover", kind: StgCommandKind::StgCover, changes_network: false },
        StgCommandRegistration { name: "one_hot", kind: StgCommandKind::OneHot, changes_network: true },
        StgCommandRegistration { name: "_stg_dump_graph", kind: StgCommandKind::StgDumpGraph, changes_network: false },
    ];
    assert(r@ =~= spec_stg_commands());
    r
}

/// Options of `stg_extract`.
#[derive(Clone, Copy, Debug, Eq, PartialEq, Structural)]
pub struct StgExtractOptions {
    pub all_start_states: bool,
    pub override_latch_limit: bool,
    pub check_containment: bool,
}

impl Default for StgExtractOptions {
    fn default() -> (r: Self)
        ensures
            r == (StgExtractOptions { all_start_states: false, override_latch_limit: false, check_containment: false }),
    {
        StgExtractOptions { all_start_states: false, override_latch_limit: false, check_containment: false }
    }
}

#[derive(Clone, Copy, Debug, Eq, PartialEq, Structural)]
pub struct NetworkLatchSummary {
    pub latch_count: usize,
}

#[derive(Clone, Copy, Debug, Eq, PartialEq, Structural)]
pub struct StgExtractPlan {
    pub options: StgExtractOptions,
    pub latch_count: usize,
}

#[derive(Clone, Copy, Debug, Eq, PartialEq, Structural)]
pub struct StgExtractionTotals {
    pub states: usize,
    pub edges: usize,
}

/// Options of `stg_to_network`: the encoding option, 0, 1 or 2.
#[derive(Clone, Copy, Debug, Eq, PartialEq, Structural)]
pub struct StgToNetworkOptions {
    pub encoding_option: u8,
}

impl Default for StgToNetworkOptions {
    fn default() -> (r: Self)
        ensures
            r.encoding_option == 1,
    {
        StgToNetworkOptions { encoding_option: 1 }
    }
}

#[derive(Clone, Copy, Debug, Eq, PartialEq, Structural)]
pub enum EspressoMode {
    Fd,
    FdSo,
}

impl StgToNetworkOptions {
    /// Whether a single encoded output is produced (any option but 0).
    pub fn stg_single(self) -> (r: bool)
        ensures
            r == (self.encoding_option != 0),
    {
        self.encoding_option != 0
    }

    /// The minimization mode: `FdSo` for option 2, otherwise `Fd`.
    pub fn espresso_mode(self) -> (r: EspressoMode)
        ensures
            r == if self.encoding_option == 2 { EspressoMode::FdSo } else { EspressoMode::Fd },
    {
        if self.encoding_option == 2 { EspressoMode::FdSo } else { EspressoMode::Fd }
    }
}

/// A call of an external state-assignment or state-minimization program.
#[derive(Clone, Debug, Eq, PartialEq)]
pub struct ExternalStateToolInvocation {
    pub program: String,
    pub options: Vec<String>,
    pub help_requested: bool,
    pub notice: Option<ExternalToolNotice>,
}

#[derive(Clone, Copy, Debug, Eq, PartialEq, Structural)]
pub enum ExternalToolNotice {
    Nova,
    Jedi,
    Stamina,
    Freduce,
    Sred,
}

impl ExternalToolNotice {
    /// The line printed before running the program.
    pub fn message(self) -> (r: &'static str)
        ensures
            r == match self {
                ExternalToolNotice::Nova => "Running nova, written by Tiziano Villa,  UC Berkeley\n",
                ExternalToolNotice::Jedi => "Running jedi, written by Bill Lin,  UC Berkeley\n",
                ExternalToolNotice::Stamina => "Running stamina, written by June Rho, University of Colorado at Boulder\n",
                ExternalToolNotice::Freduce => "Running freduce, written by Bill Lin,  UC Berkeley\n",
                ExternalToolNotice::Sred => "Running sred, written by Tiziano Villa,  UC Berkeley\n",
            },
    {
        match self {
            ExternalToolNotice::Nova => "Running nova, written by Tiziano Villa,  UC Berkeley\n",
            ExternalToolNotice::Jedi => "Running jedi, written by Bill Lin,  UC Berkeley\n",
            ExternalToolNotice::Stamina => "Running stamina, written by June Rho, University of Colorado at Boulder\n",
            ExternalToolNotice::Freduce => "Running freduce, written by Bill Lin,  UC Berkeley\n",
            ExternalToolNotice::Sred => "Running sred, written by Tiziano Villa,  UC Berkeley\n",
        }
    }
}

/// Errors of the STG commands.
#[derive(Clone, Debug, Eq, PartialEq)]
pub enum ComStgError {
    UnsupportedOption(String),
    MissingOptionValue(char),
    InvalidNumber { option: char, value: String },
    InvalidEncodingOption(i32),
    StateToolUsage { usage: &'static str },
    NoLatches,
    TooManyLatchesForAllStartStates { latches: usize, limit: usize },
    TooManyLatchesWithoutOverride { latches: usize, limit: usize },
    MissingStartState,
    MissingStartEncoding,
    MissingStateEncoding { state: StateId },
    StgModel(StgError),
    Blocked { command: StgCommandKind },
}

impl vstd::std_specs::convert::FromSpecImpl<StgError> for ComStgError {
    open spec fn obeys_from_spec() -> bool {
        true
    }

    open spec fn from_spec(v: StgError) -> Self {
        ComStgError::StgModel(v)
    }
}

impl From<StgError> for ComStgError {
    fn from(value: StgError) -> (r: Self) {
        ComStgError::StgModel(value)
    }
}

/// The views of the arguments.
pub open spec fn arg_views(args: Seq<&str>) -> Seq<Seq<char>> {
    Seq::new(args.len(), |i: int| args[i]@)
}

/// Applies `stg_extract` flag characters in order; an unknown flag `f` is
/// rejected as "-f".
pub open spec fn apply_extract_flags(o: StgExtractOptions, flags: Seq<char>) -> Result<StgExtractOptions, Seq<char>>
    decreases flags.len(),
{
    if flags.len() == 0 {
        Ok(o)
    } else {
        let f = flags[0];
        if f == 'a' {
            apply_extract_flags(StgExtractOptions { all_start_states: true, ..o }, flags.drop_first())
        } else if f == 'e' {
            apply_extract_flags(StgExtractOptions { override_latch_limit: true, ..o }, flags.drop_first())
        } else if f == 'c' {
            apply_extract_flags(StgExtractOptions { check_containment: true, ..o }, flags.drop_first())
        } else {
            Err(seq!['-', f])
        }
    }
}

/// `stg_extract` argument parsing: each argument is '-' followed by one or
/// more of 'a', 'e', 'c'; the first offending argument or flag is reported.
pub open spec fn extract_args_result(o: StgExtractOptions, args: Seq<Seq<char>>) -> Result<StgExtractOptions, Seq<char>>
    decreases args.len(),
{
    if args.len() == 0 {
        Ok(o)
    } else {
        let a = args[0];
        if a.len() < 2 || a[0] != '-' {
            Err(a)
        } else {
            match apply_extract_flags(o, a.drop_first()) {
                Ok(o2) => extract_args_result(o2, args.drop_first()),
                Err(e) => Err(e),
            }
        }
    }
}

/// Parses `stg_extract [-a] [-e] [-c]`; flags may be combined ("-ac").
pub fn parse_stg_extract_args(args: &[&str]) -> (r: Result<StgExtractOptions, ComStgError>)
    ensures
        match extract_args_result(StgExtractOptions { all_start_states: false, override_latch_limit: false, check_containment: false }, arg_views(args@)) {
            Ok(o) => r == Ok::<StgExtractOptions, ComStgError>(o),
            Err(e) => r matches Err(ComStgError::UnsupportedOption(s)) && s@ == e,
        },
{
    let ghost a = arg_views(args@);
    let ghost start = StgExtractOptions { all_start_states: false, override_latch_limit: false, check_containment: false };
    let mut options = StgExtractOptions { all_start_states: false, override_latch_limit: false, check_containment: false };
    let n = args.len();
    let mut i: usize = 0;
    assert(a.skip(0) =~= a);
    while i < n
        invariant
            i <= n,
            n == args@.len(),
            a == arg_views(args@),
            start == (StgExtractOptions { all_start_states: false, override_latch_limit: false, check_containment: false }),
            extract_args_result(options, a.skip(i as int)) == extract_args_result(start, a),
        decreases n - i,
    {
        let arg = args[i];
        let cs = chars_of(arg);
        proof {
            assert(a.skip(i as int)[0] == cs@);
            assert(a.skip(i as int).drop_first() =~= a.skip(i + 1));
        }
        if cs.len() < 2 || cs[0] != '-' {
            let owned = arg.to_owned();
            assert(extract_args_result(options, a.skip(i as int)) == Err::<StgExtractOptions, Seq<char>>(cs@));
            assert(extract_args_result(start, a) == Err::<StgExtractOptions, Seq<char>>(owned@));
            return Err(ComStgError::UnsupportedOption(owned));
        }
        let ghost flags = cs@.drop_first();
        let ghost before = options;
        let mut k: usize = 1;
        assert(cs@.skip(1) =~= flags);
        while k < cs.len()
            invariant
                1 <= k <= cs@.len(),
                flags == cs@.drop_first(),
                cs@.len() >= 2,
                cs@[0] == '-',
                i < n,
                n == args@.len(),
                a == arg_views(args@),
                start == (StgExtractOptions { all_start_states: false, override_latch_limit: false, check_containment: false }),
                a.skip(i as int)[0] == cs@,
                a.skip(i as int).drop_first() =~= a.skip(i + 1),
                extract_args_result(before, a.skip(i as int)) == extract_args_result(start, a),
                apply_extract_flags(options, cs@.skip(k as int)) == apply_extract_flags(before, flags),
            decreases cs@.len() - k,
        {
            let f = cs[k];
            proof {
                assert(cs@.skip(k as int).drop_first() =~= cs@.skip(k + 1));
                assert(cs@.skip(k as int)[0] == f);
            }
            if f == 'a' {
                options.all_start_states = true;
            } else if f == 'e' {
                options.override_latch_limit = true;
            } else if f == 'c' {
                options.check_containment = true;
            } else {
                let mut s = String::new();
                push_char(&mut s, '-');
                push_char(&mut s, f);
                assert(s@ =~= seq!['-', f]);
                assert(apply_extract_flags(options, cs@.skip(k as int)) == Err::<StgExtractOptions, Seq<char>>(seq!['-', f]));
                assert(apply_extract_flags(before, cs@.drop_first()) == Err::<StgExtractOptions, Seq<char>>(s@));
                assert(extract_args_result(before, a.skip(i as int)) == Err::<StgExtractOptions, Seq<char>>(s@));
                assert(extract_args_result(start, a) == Err::<StgExtractOptions, Seq<char>>(s@));
                return Err(ComStgError::UnsupportedOption(s));
            }
            k = k + 1;
        }
        assert(cs@.skip(k as int) =~= Seq::<char>::empty());
        i = i + 1;
    }
    Ok(options)
}

/// Checks the latch count against the extraction options.
pub fn plan_stg_extract(network: NetworkLatchSummary, options: StgExtractOptions) -> (r: Result<StgExtractPlan, ComStgError>)
    ensures
        r == if network.latch_count == 0 {
            Err::<StgExtractPlan, ComStgError>(ComStgError::NoLatches)
        } else if options.all_start_states && network.latch_count > STG_LATCH_LIMIT {
            Err(ComStgError::TooManyLatchesForAllStartStates { latches: network.latch_count, limit: STG_LATCH_LIMIT })
        } else if network.latch_count > STG_LATCH_LIMIT && !options.override_latch_limit {
            Err(ComStgError::TooManyLatchesWithoutOverride { latches: network.latch_count, limit: STG_LATCH_LIMIT })
        } else {
            Ok(StgExtractPlan { options, latch_count: network.latch_count })
        },
{
    if network.latch_count == 0 {
        return Err(ComStgError::NoLatches);
    }
    if options.all_start_states && network.latch_count > STG_LATCH_LIMIT {
        return Err(ComStgError::TooManyLatchesForAllStartStates { latches: network.latch_count, limit: STG_LATCH_LIMIT });
    }
    if network.latch_count > STG_LATCH_LIMIT && !options.override_latch_limit {
        return Err(ComStgError::TooManyLatchesWithoutOverride { latches: network.latch_count, limit: STG_LATCH_LIMIT });
    }
    Ok(StgExtractPlan { options, latch_count: network.latch_count })
}

/// Whether the extracted graph is checked against the network: when asked
/// to, or when it has at most `STG_CHECK_EDGE_LIMIT` edges.
pub fn should_check_network_stg_cover(options: StgExtractOptions, totals: StgExtractionTotals) -> (r: bool)
    ensures
        r == (options.check_containment || totals.edges <= STG_CHECK_EDGE_LIMIT),
{
    options.check_containment || totals.edges <= STG_CHECK_EDGE_LIMIT
}

fn blocked(command: StgCommandKind) -> (r: ComStgError)
    ensures
        r == (ComStgError::Blocked { command }),
{
    ComStgError::Blocked { command }
}

pub fn stg_extract(plan: StgExtractPlan) -> (r: Result<(), ComStgError>)
    ensures
        r == Err::<(), ComStgError>(ComStgError::Blocked { command: StgCommandKind::StgExtract }),
{
    Err(blocked(StgCommandKind::StgExtract))
}

/// What parsing the `stg_to_network` arguments gives, from the given options.
pub open spec fn to_network_args_result(o: StgToNetworkOptions, args: Seq<Seq<char>>) -> Result<StgToNetworkOptions, ComStgError>
    decreases args.len(),
{
    if args.len() == 0 {
        Ok(o)
    } else {
        let a = args[0];
        let is_prefix = a.len() >= 2 && a[0] == '-' && a[1] == 'e';
        if !is_prefix {
            Err(ComStgError::UnsupportedOption(arbitrary_string_with(a)))
        } else {
            let (value, rest) = if a.len() == 2 {
                if args.len() < 2 {
                    (None, seq![])
                } else {
                    (Some(args[1]), args.drop_first().drop_first())
                }
            } else {
                (Some(a.skip(2)), args.drop_first())
            };
            match value {
                None => Err(ComStgError::MissingOptionValue('e')),
                Some(v) => match parse_i32_spec(v) {
                    None => Err(ComStgError::InvalidNumber { option: 'e', value: arbitrary_string_with(v) }),
                    Some(p) => if 0 <= p && p <= 2 {
                        to_network_args_result(StgToNetworkOptions { encoding_option: p as u8 }, rest)
                    } else {
                        Err(ComStgError::InvalidEncodingOption(p))
                    },
                },
            }
        }
    }
}

/// Some string holding the given characters (strings are compared by their
/// characters in the contract of `parse_stg_to_network_args`).
pub open spec fn arbitrary_string_with(s: Seq<char>) -> String {
    choose|t: String| t@ == s
}

/// Whether two results of `stg_to_network` parsing agree, strings compared by
/// their characters.
pub open spec fn same_to_network_result(r: Result<StgToNetworkOptions, ComStgError>, s: Result<StgToNetworkOptions, ComStgError>) -> bool {
    match (r, s) {
        (Ok(a), Ok(b)) => a == b,
        (Err(ComStgError::UnsupportedOption(a)), Err(ComStgError::UnsupportedOption(b))) => a@ == b@,
        (Err(ComStgError::InvalidNumber { option: o1, value: a }), Err(ComStgError::InvalidNumber { option: o2, value: b })) => o1 == o2 && a@ == b@,
        (Err(ComStgError::MissingOptionValue(a)), Err(ComStgError::MissingOptionValue(b))) => a == b,
        (Err(ComStgError::InvalidEncodingOption(a)), Err(ComStgError::InvalidEncodingOption(b))) => a == b,
        _ => false,
    }
}

fn string_from(cs: &Vec<char>, from: usize) -> (r: String)
    requires
        from <= cs@.len(),
    ensures
        r@ == cs@.skip(from as int),
{
    let mut s = String::new();
    let mut i = from;
    while i < cs.len()
        invariant
            from <= i <= cs@.len(),
            s@ == cs@.subrange(from as int, i as int),
        decreases cs@.len() - i,
    {
        push_char(&mut s, cs[i]);
        assert(cs@.subrange(from as int, i + 1) =~= cs@.subrange(from as int, i as int).push(cs@[i as int]));
        i = i + 1;
    }
    assert(cs@.subrange(from as int, cs@.len() as int) =~= cs@.skip(from as int));
    s
}

/// Parses `stg_to_network [-e option]`: "-e N" or "-eN" with N in 0..=2,
/// the last one given wins; default 1.
pub fn parse_stg_to_network_args(args: &[&str]) -> (r: Result<StgToNetworkOptions, ComStgError>)
    ensures
        same_to_network_result(r, to_network_args_result(StgToNetworkOptions { encoding_option: 1 }, arg_views(args@))),
{
    let ghost a = arg_views(args@);
    let ghost start = StgToNetworkOptions { encoding_option: 1 };
    let mut options = StgToNetworkOptions { encoding_option: 1 };
    let n = args.len();
    let mut i: usize = 0;
    assert(a.skip(0) =~= a);
    while i < n
        invariant
            i <= n,
            n == args@.len(),
            a == arg_views(args@),
            to_network_args_result(options, a.skip(i as int)) == to_network_args_result(start, a),
        decreases n - i,
    {
        let arg = args[i];
        let cs = chars_of(arg);
        proof {
            assert(a.skip(i as int)[0] == cs@);
        }
        if !(cs.len() >= 2 && cs[0] == '-' && cs[1] == 'e') {
            return Err(ComStgError::UnsupportedOption(arg.to_owned()));
        }
        let value: String;
        if cs.len() == 2 {
            if i + 1 >= n {
                return Err(ComStgError::MissingOptionValue('e'));
            }
            value = args[i + 1].to_owned();
            proof {
                assert(a.skip(i as int)[1] == args@[i + 1]@);
                assert(a.skip(i as int).drop_first().drop_first() =~= a.skip(i + 2));
            }
            i = i + 2;
        } else {
            value = string_from(&cs, 2);
            proof {
                assert(a.skip(i as int).drop_first() =~= a.skip(i + 1));
            }
            i = i + 1;
        }
        let vcs = chars_of(value.as_str());
        match parse_i32_chars(&vcs) {
            None => {
                return Err(ComStgError::InvalidNumber { option: 'e', value });
            },
            Some(p) => {
                if !(0 <= p && p <= 2) {
                    return Err(ComStgError::InvalidEncodingOption(p));
                }
                options.encoding_option = p as u8;
            },
        }
    }
    assert(a.skip(i as int) =~= Seq::<Seq<char>>::empty());
    Ok(options)
}

pub fn stg_to_network(stg: &Stg, options: StgToNetworkOptions) -> (r: Result<(), ComStgError>)
    ensures
        r == Err::<(), ComStgError>(ComStgError::Blocked { command: StgCommandKind::StgToNetwork }),
{
    Err(blocked(StgCommandKind::StgToNetwork))
}

/// The notice of a known external program.
pub open spec fn spec_notice(p: Seq<char>) -> Option<ExternalToolNotice> {
    if p == "nova"@ {
        Some(ExternalToolNotice::Nova)
    } else if p == "jedi"@ {
        Some(ExternalToolNotice::Jedi)
    } else if p == "stamina"@ {
        Some(ExternalToolNotice::Stamina)
    } else if p == "freduce"@ {
        Some(ExternalToolNotice::Freduce)
    } else if p == "sred"@ {
        Some(ExternalToolNotice::Sred)
    } else {
        None
    }
}

fn external_tool_notice(program: &str) -> (r: Option<ExternalToolNotice>)
    ensures
        r == spec_notice(program@),
{
    if crate::text::str_eq(program, "nova") {
        Some(ExternalToolNotice::Nova)
    } else if crate::text::str_eq(program, "jedi") {
        Some(ExternalToolNotice::Jedi)
    } else if crate::text::str_eq(program, "stamina") {
        Some(ExternalToolNotice::Stamina)
    } else if crate::text::str_eq(program, "freduce") {
        Some(ExternalToolNotice::Freduce)
    } else if crate::text::str_eq(program, "sred") {
        Some(ExternalToolNotice::Sred)
    } else {
        None
    }
}

/// The views of a sequence of strings.
pub open spec fn string_views(s: Seq<String>) -> Seq<Seq<char>> {
    Seq::new(s.len(), |i: int| s[i]@)
}

/// What the external-tool argument parsing gives: "-x" anywhere is a usage
/// request; otherwise the first argument names the program (the default when
/// there is none) and the rest are its options; "-h" (and "-help" when
/// accepted) anywhere requests help.
pub open spec fn external_tool_ok(
    r: ExternalStateToolInvocation,
    a: Seq<Seq<char>>,
    default_program: Seq<char>,
    accept_help_word: bool,
) -> bool {
    &&& r.program@ == if a.len() == 0 { default_program } else { a[0] }
    &&& string_views(r.options@) == if a.len() == 0 { seq![] } else { a.drop_first() }
    &&& r.help_requested == exists|i: int| 0 <= i < a.len() && (a[i] == "-h"@ || (accept_help_word && a[i] == "-help"@))
    &&& r.notice == spec_notice(r.program@)
}

fn parse_external_state_tool_args(args: &[&str], default_program: &str, accept_help_word: bool, usage: &'static str) -> (r: Result<ExternalStateToolInvocation, ComStgError>)
    ensures
        (exists|i: int| 0 <= i < args@.len() && args@[i]@ == "-x"@) ==> r == Err::<ExternalStateToolInvocation, ComStgError>(ComStgError::StateToolUsage { usage }),
        !(exists|i: int| 0 <= i < args@.len() && args@[i]@ == "-x"@) ==> r is Ok && external_tool_ok(r->Ok_0, arg_views(args@), default_program@, accept_help_word),
{
    let ghost a = arg_views(args@);
    let n = args.len();
    let mut help = false;
    for i in 0..n
        invariant
            n == args@.len(),
            a == arg_views(args@),
            forall|j: int| 0 <= j < i ==> args@[j]@ != "-x"@,
            help == exists|j: int| 0 <= j < i && (a[j] == "-h"@ || (accept_help_word && a[j] == "-help"@)),
    {
        if crate::text::str_eq(args[i], "-x") {
            return Err(ComStgError::StateToolUsage { usage });
        }
        let h = crate::text::str_eq(args[i], "-h") || (accept_help_word && crate::text::str_eq(args[i], "-help"));
        assert(a[i as int] == args@[i as int]@);
        help = help || h;
    }
    let program: String = if n == 0 { default_program.to_owned() } else { args[0].to_owned() };
    let mut options: Vec<String> = Vec::new();
    if n > 0 {
        for i in 1..n
            invariant
                n == args@.len(),
                a == arg_views(args@),
                string_views(options@) == a.subrange(1, i as int),
        {
            let ghost prev = options@;
            options.push(args[i].to_owned());
            assert(string_views(options@) =~= string_views(prev).push(args@[i as int]@));
            assert(a.subrange(1, i + 1) =~= a.subrange(1, i as int).push(a[i as int]));
        }
        assert(a.subrange(1, n as int) =~= a.drop_first());
    } else {
        assert(string_views(options@) =~= Seq::<Seq<char>>::empty());
    }
    let notice = external_tool_notice(program.as_str());
    Ok(ExternalStateToolInvocation { program, options, help_requested: help, notice })
}

/// Parses `state_assign program options`; the program defaults to `nova`.
pub fn parse_state_assign_args(args: &[&str]) -> (r: Result<ExternalStateToolInvocation, ComStgError>)
    ensures
        (exists|i: int| 0 <= i < args@.len() && args@[i]@ == "-x"@) ==> r == Err::<ExternalStateToolInvocation, ComStgError>(ComStgError::StateToolUsage { usage: STATE_ASSIGN_USAGE }),
        !(exists|i: int| 0 <= i < args@.len() && args@[i]@ == "-x"@) ==> r is Ok && external_tool_ok(r->Ok_0, arg_views(args@), "nova"@, true),
{
    parse_external_state_tool_args(args, "nova", true, STATE_ASSIGN_USAGE)
}

/// Parses `state_minimize program options`; the program defaults to `stamina`.
pub fn parse_state_minimize_args(args: &[&str]) -> (r: Result<ExternalStateToolInvocation, ComStgError>)
    ensures
        (exists|i: int| 0 <= i < args@.len() && args@[i]@ == "-x"@) ==> r == Err::<ExternalStateToolInvocation, ComStgError>(ComStgError::StateToolUsage { usage: STATE_MINIMIZE_USAGE }),
        !(exists|i: int| 0 <= i < args@.len() && args@[i]@ == "-x"@) ==> r is Ok && external_tool_ok(r->Ok_0, arg_views(args@), "stamina"@, false),
{
    parse_external_state_tool_args(args, "stamina", false, STATE_MINIMIZE_USAGE)
}

pub fn state_assign(invocation: ExternalStateToolInvocation) -> (r: Result<(), ComStgError>)
    ensures
        r == Err::<(), ComStgError>(ComStgError::Blocked { command: StgCommandKind::StateAssign }),
{
    Err(blocked(StgCommandKind::StateAssign))
}

pub fn state_minimize(invocation: ExternalStateToolInvocation) -> (r: Result<(), ComStgError>)
    ensures
        r == Err::<(), ComStgError>(ComStgError::Blocked { command: StgCommandKind::StateMinimize }),
{
    Err(blocked(StgCommandKind::StateMinimize))
}

pub fn stg_cover() -> (r: Result<(), ComStgError>)
    ensures
        r == Err::<(), ComStgError>(ComStgError::Blocked { command: StgCommandKind::StgCover }),
{
    Err(blocked(StgCommandKind::StgCover))
}

pub fn one_hot(stg: &mut Stg) -> (r: Result<(), ComStgError>)
    ensures
        r == Err::<(), ComStgError>(ComStgError::Blocked { command: StgCommandKind::OneHot }),
        *final(stg) == *old(stg),
{
    Err(blocked(StgCommandKind::OneHot))
}

pub fn stg_dump_graph() -> (r: Result<(), ComStgError>)
    ensures
        r == Err::<(), ComStgError>(ComStgError::Blocked { command: StgCommandKind::StgDumpGraph }),
{
    Err(blocked(StgCommandKind::StgDumpGraph))
}

/// The one-hot code of state `i` among `n`: '1' at position `i`, '0' elsewhere.
pub open spec fn one_hot_code(n: nat, i: nat) -> Seq<char> {
    Seq::new(n, |j: int| if j == i { '1' } else { '0' })
}

/// Gives every state its one-hot code, in state order, and returns the codes.
pub fn assign_one_hot_encodings(stg: &mut Stg) -> (r: Result<Vec<String>, ComStgError>)
    ensures
        r is Ok,
        string_views(r->Ok_0@) == Seq::new(old(stg).spec_encodings().len(), |i: int| one_hot_code(old(stg).spec_encodings().len(), i as nat)),
        final(stg).spec_encodings() == Seq::new(old(stg).spec_encodings().len(), |i: int| Some(one_hot_code(old(stg).spec_encodings().len(), i as nat))),
        final(stg).spec_names() == old(stg).spec_names(),
        final(stg).spec_start() == old(stg).spec_start(),
        final(stg).spec_transitions() == old(stg).spec_transitions(),
        final(stg).spec_num_inputs() == old(stg).spec_num_inputs(),
        final(stg).spec_num_outputs() == old(stg).spec_num_outputs(),
{
    let count = stg.num_states();
    let ghost old_enc = stg.spec_encodings();
    let mut encodings: Vec<String> = Vec::new();
    for index in 0..count
        invariant
            count == old(stg).spec_encodings().len(),
            stg.spec_encodings().len() == count,
            forall|j: int| index <= j < count ==> stg.spec_encodings()[j] == old(stg).spec_encodings()[j],
            forall|j: int| 0 <= j < index ==> stg.spec_encodings()[j] == Some(one_hot_code(count as nat, j as nat)),
            string_views(encodings@) == Seq::new(index as nat, |i: int| one_hot_code(count as nat, i as nat)),
            stg.spec_names() == old(stg).spec_names(),
            stg.spec_start() == old(stg).spec_start(),
            stg.spec_transitions() == old(stg).spec_transitions(),
            stg.spec_num_inputs() == old(stg).spec_num_inputs(),
            stg.spec_num_outputs() == old(stg).spec_num_outputs(),
    {
        let mut code = String::new();
        for j in 0..count
            invariant
                code@ == one_hot_code(count as nat, index as nat).take(j as int),
        {
            push_char(&mut code, if j == index { '1' } else { '0' });
            assert(one_hot_code(count as nat, index as nat).take(j + 1) =~= one_hot_code(count as nat, index as nat).take(j as int).push(if j == index { '1' } else { '0' }));
        }
        assert(one_hot_code(count as nat, index as nat).take(count as int) =~= one_hot_code(count as nat, index as nat));
        let copy = code.clone();
        let res = stg.set_state_encoding(StateId(index), code);
        let ghost prev = encodings@;
        encodings.push(copy);
        assert(string_views(encodings@) =~= string_views(prev).push(copy@));
        assert(string_views(encodings@) =~= Seq::new((index + 1) as nat, |i: int| one_hot_code(count as nat, i as nat)));
    }
    assert(stg.spec_encodings() =~= Seq::new(count as nat, |i: int| Some(one_hot_code(count as nat, i as nat))));
    Ok(encodings)
}

/// The encoding of a state, when the state exists and has one.
pub open spec fn encoding_of(stg: Stg, s: StateId) -> Option<Seq<char>> {
    if s.0 < stg.spec_encodings().len() { stg.spec_encodings()[s.0 as int] } else { None }
}

/// The first state without encoding met while reading the transitions in
/// order, source before destination.
pub open spec fn first_unencoded(stg: Stg, ts: Seq<Transition>) -> Option<StateId>
    decreases ts.len(),
{
    if ts.len() == 0 {
        None
    } else if encoding_of(stg, ts[0].from) is None {
        Some(ts[0].from)
    } else if encoding_of(stg, ts[0].to) is None {
        Some(ts[0].to)
    } else {
        first_unencoded(stg, ts.drop_first())
    }
}

/// One line per transition: input, source code, destination code, output.
pub open spec fn espresso_lines(stg: Stg, ts: Seq<Transition>) -> Seq<char>
    decreases ts.len(),
{
    if ts.len() == 0 {
        seq![]
    } else {
        let t = ts.last();
        espresso_lines(stg, ts.drop_last()) + t.input@ + seq![' '] + encoding_of(stg, t.from).unwrap()
            + seq![' '] + encoding_of(stg, t.to).unwrap() + seq![' '] + t.output@ + seq!['\n']
    }
}

/// The encoded two-level text of a graph whose states are all encoded.
pub open spec fn espresso_text(stg: Stg, bits: nat) -> Seq<char> {
    ".type fr\n"@ + ".i "@ + decimal(stg.spec_num_inputs() + bits) + "\n"@ + ".o "@
        + decimal(stg.spec_num_outputs() + bits) + "\n"@ + espresso_lines(stg, stg.spec_transitions()) + ".e\n"@
}

proof fn lemma_first_unencoded_prefix(stg: Stg, ts: Seq<Transition>, k: int)
    requires
        0 <= k <= ts.len(),
        forall|j: int| 0 <= j < k ==> encoding_of(stg, ts[j].from) is Some && encoding_of(stg, ts[j].to) is Some,
    ensures
        first_unencoded(stg, ts) == first_unencoded(stg, ts.skip(k)),
    decreases k,
{
    if k > 0 {
        let t = ts.drop_first();
        assert forall|j: int| 0 <= j < k - 1 implies encoding_of(stg, t[j].from) is Some && encoding_of(stg, t[j].to) is Some by {
            assert(t[j] == ts[j + 1]);
        }
        lemma_first_unencoded_prefix(stg, t, k - 1);
        assert(t.skip(k - 1) =~= ts.skip(k));
    } else {
        assert(ts.skip(0) =~= ts);
    }
}

/// The encoded two-level ("fr") form: header with input and output counts
/// widened by the code width of the start state, one line per transition,
/// then ".e".
pub fn write_encoded_espresso_format(stg: &Stg) -> (r: Result<String, ComStgError>)
    requires
        ({
            let bits: nat = match stg.spec_start() {
                Some(s) => match encoding_of(*stg, s) { Some(e) => e.len(), None => 0 },
                None => 0,
            };
            stg.spec_num_inputs() + bits <= u64::MAX && stg.spec_num_outputs() + bits <= u64::MAX
        }),
    ensures
        match stg.spec_start() {
            None => r == Err::<String, ComStgError>(ComStgError::MissingStartState),
            Some(s) => match encoding_of(*stg, s) {
                None => r == Err::<String, ComStgError>(ComStgError::MissingStartEncoding),
                Some(bits) => match first_unencoded(*stg, stg.spec_transitions()) {
                    Some(state) => r == Err::<String, ComStgError>(ComStgError::MissingStateEncoding { state }),
                    None => r is Ok && r->Ok_0@ == espresso_text(*stg, bits.len()),
                },
            },
        },
{
    let start = match stg.start() {
        Some(s) => s,
        None => {
            return Err(ComStgError::MissingStartState);
        },
    };
    let state_bits = match stg.state_encoding(start) {
        Some(e) => crate::text::chars_of(e).len(),
        None => {
            return Err(ComStgError::MissingStartEncoding);
        },
    };
    let ts = stg.transitions();
    let n = ts.len();
    for i in 0..n
        invariant
            n == ts@.len(),
            ts@ == stg.spec_transitions(),
            stg.spec_start() == Some(start),
            encoding_of(*stg, start) is Some,
            forall|j: int| 0 <= j < i ==> encoding_of(*stg, ts@[j].from) is Some && encoding_of(*stg, ts@[j].to) is Some,
    {
        let t = &ts[i];
        if stg.state_encoding(t.from).is_none() {
            proof {
                lemma_first_unencoded_prefix(*stg, ts@, i as int);
            }
            return Err(ComStgError::MissingStateEncoding { state: t.from });
        }
        if stg.state_encoding(t.to).is_none() {
            proof {
                lemma_first_unencoded_prefix(*stg, ts@, i as int);
            }
            return Err(ComStgError::MissingStateEncoding { state: t.to });
        }
    }
    proof {
        lemma_first_unencoded_prefix(*stg, ts@, n as int);
    }
    let mut output = String::new();
    push_str(&mut output, ".type fr\n");
    push_str(&mut output, ".i ");
    push_decimal(&mut output, (stg.num_inputs() as u64) + (state_bits as u64));
    push_str(&mut output, "\n");
    push_str(&mut output, ".o ");
    push_decimal(&mut output, (stg.num_outputs() as u64) + (state_bits as u64));
    push_str(&mut output, "\n");
    let ghost head = output@;
    for i in 0..n
        invariant
            n == ts@.len(),
            ts@ == stg.spec_transitions(),
            forall|j: int| 0 <= j < n ==> encoding_of(*stg, ts@[j].from) is Some && encoding_of(*stg, ts@[j].to) is Some,
            output@ == head + espresso_lines(*stg, ts@.take(i as int)),
    {
        let t = &ts[i];
        let from_code = stg.state_encoding(t.from).unwrap();
        let to_code = stg.state_encoding(t.to).unwrap();
        push_str(&mut output, t.input.as_str());
        push_char(&mut output, ' ');
        push_str(&mut output, from_code);
        push_char(&mut output, ' ');
        push_str(&mut output, to_code);
        push_char(&mut output, ' ');
        push_str(&mut output, t.output.as_str());
        push_char(&mut output, '\n');
        proof {
            assert(ts@.take(i + 1).drop_last() =~= ts@.take(i as int));
            assert(ts@.take(i + 1).last() == ts@[i as int]);
        }
        assert(output@ =~= head + espresso_lines(*stg, ts@.take(i + 1)));
    }
    assert(ts@.take(n as int) =~= ts@);
    push_str(&mut output, ".e\n");
    assert(output@ =~= espresso_text(*stg, state_bits as nat));
    Ok(output)
}

} // verus!
