//! The retiming commands: their registrations, the option scanning they
//! share, the translation check's plan, and the prefix of a C number that
//! the numeric options read.

use vstd::prelude::*;
use crate::text::{push_str, push_char, chars_of, string_from_chars};
use crate::com_simp::{scan_options, scan_args, arg_views, event_views, OptionFailure};
use crate::numparse::{is_space, is_digit, leading_spaces, leading_digits, is_space_char, lemma_leading_spaces, lemma_leading_digits};

verus! {

#[derive(Clone, Copy, Debug, Eq, PartialEq, Structural)]
pub enum DelayModel {
    Mapped,
    UnitFanout,
}

#[derive(Clone, Copy, Debug, Eq, PartialEq, Structural)]
pub enum RetimeCommandKind {
    Retime,
    CheckTranslation,
    PrintStats,
}

#[derive(Clone, Debug, Eq, PartialEq)]
pub struct CommandRegistration {
    pub name: String,
    pub kind: RetimeCommandKind,
    pub changes_network: bool,
}

/// The registered commands: name, kind, and whether they change the network.
pub open spec fn registrations_spec() -> Seq<(Seq<char>, RetimeCommandKind, bool)> {
    seq![
        ("retime"@, RetimeCommandKind::Retime, true),
        ("_check_tr"@, RetimeCommandKind::CheckTranslation, true),
        ("_print_stats"@, RetimeCommandKind::PrintStats, false),
    ]
}

pub open spec fn registration_view(r: CommandRegistration) -> (Seq<char>, RetimeCommandKind, bool) {
    (r.name@, r.kind, r.changes_network)
}

fn registration(name: &str, kind: RetimeCommandKind, changes_network: bool) -> (r: CommandRegistration)
    ensures
        registration_view(r) == (name@, kind, changes_network),
{
    CommandRegistration { name: name.to_owned(), kind, changes_network }
}

/// The three retiming commands.
pub fn retime_command_registrations() -> (r: Vec<CommandRegistration>)
    ensures
        r@.len() == 3,
        forall|i: int| 0 <= i < 3 ==> registration_view(#[trigger] r@[i]) == registrations_spec()[i],
{
    let mut v: Vec<CommandRegistration> = Vec::new();
    v.push(registration("retime", RetimeCommandKind::Retime, true));
    v.push(registration("_check_tr", RetimeCommandKind::CheckTranslation, true));
    v.push(registration("_print_stats", RetimeCommandKind::PrintStats, false));
    v
}

#[derive(Clone, Copy, Debug, Eq, PartialEq, Structural)]
pub enum RetimeAction {
    ReturnIfEmptyOrCombinational,
    RequireMappedNetworkAndLibrary,
    SweepUnmappedNetwork,
    TraceDelay,
    ReadClockData,
    UseSpecifiedOrClockCycleTime,
    RejectCycleTimeBelowRegisterDelay,
    BuildRetimeGraph,
    OptionallyCheckAndDumpGraph,
    UseLowerBoundWhenNoCycleSpecified,
    ComputeInitialCycleDelay,
    ReturnIfSpecificationAlreadyMet,
    OptimizeGraph,
    ReturnIfNoLatchesMoved,
    ReconstructNetworkOnSuccess,
    SetWorkingCycleTime,
    CleanupTemporaryNodesAndGraph,
}

#[derive(Clone, Copy, Debug, Eq, PartialEq, Structural)]
pub enum PrintStatsAction {
    PrintStgDataIfEmptyNetwork,
    FallBackToUnitFanoutWhenUnmappedOrNoLibrary,
    BuildRetimeGraph,
    CleanupTemporaryNodes,
    ReadClockData,
    ReportCycleRegisterAndAreaStats,
    PrintStgData,
}

#[derive(Clone, Copy, Debug, Eq, PartialEq, Structural)]
pub enum CheckTranslationAction {
    ReturnIfEmptyNetwork,
    PrintLatchTrueInputs,
    PrintInitialNetwork,
    FallBackToUnitFanoutWhenUnmapped,
    BuildRetimeGraph,
    DumpAndCheckGraph,
    ReadClockData,
    ReconstructNetwork,
    RequireMappedNetworkAfterTranslation,
    DuplicateClockAndDelayDefaults,
    ReplaceNetworkAndCleanup,
}

#[derive(Clone, Copy, Debug, Eq, PartialEq, Structural)]
pub enum RetimePreflightDecision {
    NoOpEmptyOrCombinational,
    NeedUnmappedSweep,
    MissingMappedNetwork,
    MissingLibrary,
    DelayThroughRegisterExceedsDesiredCycle,
    SpecificationAlreadyMet,
    ReadyToBuildGraph,
}

#[derive(Clone, Copy, Debug, Eq, PartialEq, Structural)]
pub struct CheckTranslationOptions {
    pub use_mapped_network: bool,
    pub debug_level: i32,
}

impl Default for CheckTranslationOptions {
    fn default() -> (r: Self)
        ensures
            r == (CheckTranslationOptions { use_mapped_network: true, debug_level: 100 }),
    {
        CheckTranslationOptions { use_mapped_network: true, debug_level: 100 }
    }
}

#[derive(Clone, Debug, Eq, PartialEq)]
pub struct CheckTranslationPlan {
    pub options: CheckTranslationOptions,
    pub actions: Vec<CheckTranslationAction>,
}

/// The steps of the translation check, in order.
pub open spec fn check_translation_actions() -> Seq<CheckTranslationAction> {
    seq![
        CheckTranslationAction::ReturnIfEmptyNetwork,
        CheckTranslationAction::PrintLatchTrueInputs,
        CheckTranslationAction::PrintInitialNetwork,
        CheckTranslationAction::FallBackToUnitFanoutWhenUnmapped,
        CheckTranslationAction::BuildRetimeGraph,
        CheckTranslationAction::DumpAndCheckGraph,
        CheckTranslationAction::ReadClockData,
        CheckTranslationAction::ReconstructNetwork,
        CheckTranslationAction::RequireMappedNetworkAfterTranslation,
        CheckTranslationAction::DuplicateClockAndDelayDefaults,
        CheckTranslationAction::ReplaceNetworkAndCleanup,
    ]
}

#[derive(Clone, Debug, Eq, PartialEq)]
pub enum CommandParseError {
    MissingOptionValue(char),
    UnsupportedOption(String),
}

impl CommandParseError {
    /// The failure this error reports.
    pub open spec fn failure(&self) -> OptionFailure {
        match *self {
            CommandParseError::MissingOptionValue(c) => OptionFailure::MissingValue(c),
            CommandParseError::UnsupportedOption(s) => OptionFailure::Unsupported(s@),
        }
    }

    /// The message describing the error.
    pub fn message(&self) -> (r: String)
        ensures
            r@ == (match *self {
                CommandParseError::MissingOptionValue(c) => seq!['-', c] + " requires an argument"@,
                CommandParseError::UnsupportedOption(s) => "unsupported option "@ + s@,
            }),
    {
        let mut out = String::new();
        match self {
            CommandParseError::MissingOptionValue(c) => {
                push_char(&mut out, '-');
                push_char(&mut out, *c);
                push_str(&mut out, " requires an argument");
            },
            CommandParseError::UnsupportedOption(s) => {
                push_str(&mut out, "unsupported option ");
                push_str(&mut out, s.as_str());
            },
        }
        proof {
            reveal_strlit(" requires an argument");
            reveal_strlit("unsupported option ");
        }
        assert(out@ =~= (match *self {
            CommandParseError::MissingOptionValue(c) => seq!['-', c] + " requires an argument"@,
            CommandParseError::UnsupportedOption(s) => "unsupported option "@ + s@,
        }));
        out
    }
}

#[derive(Clone, Debug, Eq, PartialEq)]
pub enum RetimeCommandError {
    MissingNativeSupport { command: RetimeCommandKind },
}

pub open spec fn kind_text(k: RetimeCommandKind) -> Seq<char> {
    match k {
        RetimeCommandKind::Retime => "Retime"@,
        RetimeCommandKind::CheckTranslation => "CheckTranslation"@,
        RetimeCommandKind::PrintStats => "PrintStats"@,
    }
}

impl RetimeCommandError {
    /// The message describing the error.
    pub fn message(&self) -> (r: String)
        ensures
            r@ == (match *self {
                RetimeCommandError::MissingNativeSupport { command } => kind_text(command) + " requires native network support"@,
            }),
    {
        let mut out = String::new();
        match self {
            RetimeCommandError::MissingNativeSupport { command } => {
                match command {
                    RetimeCommandKind::Retime => push_str(&mut out, "Retime"),
                    RetimeCommandKind::CheckTranslation => push_str(&mut out, "CheckTranslation"),
                    RetimeCommandKind::PrintStats => push_str(&mut out, "PrintStats"),
                }
                push_str(&mut out, " requires native network support");
            },
        }
        out
    }
}

/// Scanning a retiming command line: options only; the first operand, or
/// one after "--", is an unsupported option.
pub open spec fn retime_scan(spec: Seq<char>, args: Seq<Seq<char>>) -> Result<Seq<(char, Seq<char>)>, OptionFailure> {
    let (evs, ops, err) = scan_args(spec, args);
    match err {
        Some(f) => Err(f),
        None => if ops.len() > 0 { Err(OptionFailure::Unsupported(ops[0])) } else { Ok(evs) },
    }
}

/// Scans the options of a retiming command line against an option string
/// (a letter followed by ':' takes a value).
pub fn scan_retime_options(args: &[&str], spec: &str) -> (r: Result<Vec<(char, String)>, CommandParseError>)
    ensures
        match retime_scan(spec@, arg_views(args@)) {
            Ok(evs) => r matches Ok(v) && event_views(v@) == evs,
            Err(f) => r matches Err(e) && e.failure() == f,
        },
{
    let (evs, ops, err) = scan_options(args, spec);
    proof {
        lemma_scan_failures(spec@, arg_views(args@));
    }
    match err {
        Some(e) => match e {
            crate::com_simp::CommandParseError::MissingOptionValue(c) => Err(CommandParseError::MissingOptionValue(c)),
            crate::com_simp::CommandParseError::UnsupportedOption(s) => Err(CommandParseError::UnsupportedOption(s)),
            _ => {
                assert(false);
                Err(CommandParseError::UnsupportedOption(String::new()))
            },
        },
        None => {
            if ops.len() > 0 {
                let mut ops = ops;
                let first = ops.remove(0);
                Err(CommandParseError::UnsupportedOption(first))
            } else {
                Ok(evs)
            }
        },
    }
}

proof fn lemma_cluster_failures(spec: Seq<char>, cs: Seq<char>, next: Option<Seq<char>>)
    ensures
        crate::com_simp::scan_cluster(spec, cs, next).2 matches Some(f) ==> (f is MissingValue || f is Unsupported),
    decreases cs.len(),
{
    if cs.len() > 0 {
        lemma_cluster_failures(spec, cs.drop_first(), next);
    }
}

proof fn lemma_scan_failures(spec: Seq<char>, args: Seq<Seq<char>>)
    ensures
        scan_args(spec, args).2 matches Some(f) ==> (f is MissingValue || f is Unsupported),
    decreases args.len(),
{
    if args.len() > 0 {
        let a = args[0];
        if !(a.len() == 0 || a[0] != '-' || a == seq!['-']) && a != seq!['-', '-'] {
            let next = if args.len() > 1 { Some(args[1]) } else { None };
            lemma_cluster_failures(spec, a.drop_first(), next);
            let (evs, used, err) = crate::com_simp::scan_cluster(spec, a.drop_first(), next);
            if err is None {
                let rest = if used && args.len() >= 2 { args.skip(2) } else { args.drop_first() };
                lemma_scan_failures(spec, rest);
            }
        }
    }
}

/// Parses the translation check's options: -n uses the unmapped network.
pub fn parse_check_translation_args(args: &[&str]) -> (r: Result<CheckTranslationPlan, CommandParseError>)
    ensures
        match retime_scan("n"@, arg_views(args@)) {
            Ok(evs) => r matches Ok(p) && p.options.use_mapped_network == (evs.len() == 0) && p.options.debug_level == 100
                && p.actions@ == check_translation_actions(),
            Err(f) => r matches Err(e) && e.failure() == f,
        },
{
    let evs = match scan_retime_options(args, "n") {
        Err(e) => {
            return Err(e);
        },
        Ok(v) => v,
    };
    let mut options = CheckTranslationOptions::default();
    let mut k: usize = 0;
    while k < evs.len()
        invariant
            k <= evs@.len(),
            options.debug_level == 100,
            options.use_mapped_network == (k == 0),
        decreases evs@.len() - k,
    {
        options.use_mapped_network = false;
        k = k + 1;
    }
    let actions = vec![
        CheckTranslationAction::ReturnIfEmptyNetwork,
        CheckTranslationAction::PrintLatchTrueInputs,
        CheckTranslationAction::PrintInitialNetwork,
        CheckTranslationAction::FallBackToUnitFanoutWhenUnmapped,
        CheckTranslationAction::BuildRetimeGraph,
        CheckTranslationAction::DumpAndCheckGraph,
        CheckTranslationAction::ReadClockData,
        CheckTranslationAction::ReconstructNetwork,
        CheckTranslationAction::RequireMappedNetworkAfterTranslation,
        CheckTranslationAction::DuplicateClockAndDelayDefaults,
        CheckTranslationAction::ReplaceNetworkAndCleanup,
    ];
    assert(actions@ =~= check_translation_actions());
    Ok(CheckTranslationPlan { options, actions })
}

/// The length of a sign at position `i` (0 or 1).
pub open spec fn sign_len(t: Seq<char>, i: int) -> nat {
    if 0 <= i < t.len() && (t[i] == '+' || t[i] == '-') { 1 } else { 0 }
}

/// Where the longest C floating-point prefix of `t` ends: an optional sign,
/// digits, an optional '.' and digits (at least one digit in all), then an
/// exponent only when it has a digit; none without a digit.
pub open spec fn float_prefix_end(t: Seq<char>) -> Option<nat> {
    let a = sign_len(t, 0);
    let d1 = leading_digits(t.skip(a as int));
    let b = a + d1;
    let has_dot = b < t.len() && t[b as int] == '.';
    let d2 = if has_dot { leading_digits(t.skip((b + 1) as int)) } else { 0 };
    let c = if has_dot { b + 1 + d2 } else { b };
    if d1 + d2 == 0 {
        None
    } else if c < t.len() && (t[c as int] == 'e' || t[c as int] == 'E') {
        let e = c + 1 + sign_len(t, (c + 1) as int);
        let d3 = leading_digits(t.skip(e as int));
        if d3 > 0 { Some(e + d3) } else { Some(c) }
    } else {
        Some(c)
    }
}

/// The C floating-point prefix of a text after its leading white space.
pub open spec fn c_float_prefix_spec(s: Seq<char>) -> Option<Seq<char>> {
    let t = s.skip(leading_spaces(s) as int);
    match float_prefix_end(t) {
        Some(e) => Some(t.take(e as int)),
        None => None,
    }
}

fn skip_digits(t: &Vec<char>, from: usize) -> (r: usize)
    requires
        from <= t@.len(),
    ensures
        from <= r <= t@.len(),
        r - from == leading_digits(t@.skip(from as int)),
{
    let mut i = from;
    while i < t.len() && '0' <= t[i] && t[i] <= '9'
        invariant
            from <= i <= t@.len(),
            forall|j: int| from <= j < i ==> is_digit(t@[j]),
        decreases t@.len() - i,
    {
        i = i + 1;
    }
    proof {
        let s = t@.skip(from as int);
        assert forall|j: int| 0 <= j < i - from implies is_digit(s[j]) by {
            assert(s[j] == t@[from + j]);
        }
        if i < t@.len() {
            assert(s[i - from] == t@[i as int]);
        }
        lemma_leading_digits(s, i - from);
    }
    i
}

fn sign_at(t: &Vec<char>, i: usize) -> (r: usize)
    ensures
        r == sign_len(t@, i as int),
{
    if i < t.len() && (t[i] == '+' || t[i] == '-') { 1 } else { 0 }
}

/// The text of the longest C floating-point number at the start of `value`
/// (after its leading white space), or none when it has no digit.
pub fn c_float_prefix(value: &str) -> (r: Option<String>)
    ensures
        match c_float_prefix_spec(value@) {
            Some(p) => r matches Some(x) && x@ == p,
            None => r is None,
        },
{
    let s = chars_of(value);
    let mut start: usize = 0;
    while start < s.len() && is_space_char(s[start])
        invariant
            start <= s@.len(),
            forall|j: int| 0 <= j < start ==> is_space(s@[j]),
        decreases s@.len() - start,
    {
        start = start + 1;
    }
    proof {
        lemma_leading_spaces(s@, start as int);
    }
    let mut t: Vec<char> = Vec::new();
    let mut k = start;
    while k < s.len()
        invariant
            start <= k <= s@.len(),
            t@ == s@.subrange(start as int, k as int),
        decreases s@.len() - k,
    {
        t.push(s[k]);
        assert(s@.subrange(start as int, k + 1) =~= s@.subrange(start as int, k as int).push(s@[k as int]));
        k = k + 1;
    }
    assert(t@ =~= s@.skip(start as int));
    let a = sign_at(&t, 0);
    let b = skip_digits(&t, a);
    let d1 = b - a;
    let has_dot = b < t.len() && t[b] == '.';
    let c = if has_dot { skip_digits(&t, b + 1) } else { b };
    let d2 = if has_dot { c - (b + 1) } else { 0 };
    if d1 + d2 == 0 {
        return None;
    }
    let mut end = c;
    if c < t.len() && (t[c] == 'e' || t[c] == 'E') {
        let e = c + 1 + sign_at(&t, c + 1);
        if e <= t.len() {
            let f = skip_digits(&t, e);
            if f > e {
                end = f;
            }
        } else {
            assert(sign_len(t@, c + 1) == 0);
        }
    }
    let mut out: Vec<char> = Vec::new();
    for i in 0..end
        invariant
            end <= t@.len(),
            out@ == t@.take(i as int),
    {
        out.push(t[i]);
        assert(t@.take(i + 1) =~= t@.take(i as int).push(t@[i as int]));
    }
    assert(t@.take(end as int) =~= out@);
    Some(string_from_chars(&out))
}

} // verus!
