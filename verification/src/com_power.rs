//! The power commands: their registrations, and the dispatch of a command
//! to the power routines, which the utility commands reach only when given
//! no argument beyond the command name.

use vstd::prelude::*;
use crate::text::{push_str, debug_text};

verus! {

pub const POWER_FREE_INFO_USAGE: &'static str = "Too many arguments. Usage: power_free_info";

pub const POWER_PRINT_USAGE: &'static str = "Too many arguments. Usage: power_print";

#[derive(Clone, Copy, Debug, Eq, PartialEq, Structural)]
pub enum PowerCommandKind {
    Estimate,
    FreeInfo,
    Print,
}

#[derive(Clone, Copy, Debug, Eq, PartialEq)]
pub struct CommandRegistration {
    pub name: &'static str,
    pub kind: PowerCommandKind,
    pub changes_network: bool,
}

/// The power commands, in registration order.
pub fn power_commands() -> (r: Vec<CommandRegistration>)
    ensures
        r@.len() == 3,
        r@[0].name == "power_estimate" && r@[0].kind == PowerCommandKind::Estimate && r@[0].changes_network,
        r@[1].name == "power_free_info" && r@[1].kind == PowerCommandKind::FreeInfo && r@[1].changes_network,
        r@[2].name == "power_print" && r@[2].kind == PowerCommandKind::Print && !r@[2].changes_network,
{
    let mut v: Vec<CommandRegistration> = Vec::new();
    v.push(CommandRegistration { name: "power_estimate", kind: PowerCommandKind::Estimate, changes_network: true });
    v.push(CommandRegistration { name: "power_free_info", kind: PowerCommandKind::FreeInfo, changes_network: true });
    v.push(CommandRegistration { name: "power_print", kind: PowerCommandKind::Print, changes_network: false });
    v
}

#[derive(Clone, Copy, Debug, Eq, PartialEq, Structural)]
pub enum PowerCommandOperation {
    RegisterCommands,
    Estimate,
    FreeInfo,
    Print,
}

/// A command and its arguments, the command name first.
#[derive(Clone, Debug, Eq, PartialEq)]
pub struct PowerCommandInvocation {
    pub kind: PowerCommandKind,
    pub argv: Vec<String>,
}

impl PowerCommandInvocation {
    pub fn new(kind: PowerCommandKind, argv: &[&str]) -> (r: Self)
        ensures
            r.kind == kind,
            r.argv@.len() == argv@.len(),
            forall|i: int| 0 <= i < argv@.len() ==> #[trigger] r.argv@[i]@ == argv@[i]@,
    {
        let mut v: Vec<String> = Vec::new();
        for i in 0..argv.len()
            invariant
                v@.len() == i,
                forall|k: int| 0 <= k < i ==> #[trigger] v@[k]@ == argv@[k]@,
        {
            v.push(argv[i].to_owned());
        }
        PowerCommandInvocation { kind, argv: v }
    }

    pub fn argc(&self) -> (r: usize)
        ensures
            r == self.argv@.len(),
    {
        self.argv.len()
    }
}

#[derive(Clone, Debug, Eq, PartialEq)]
pub enum PowerCommandError {
    MissingNativeSupport { operation: PowerCommandOperation },
    TooManyArguments { command: PowerCommandKind, usage: &'static str },
    Backend(String),
}

pub open spec fn operation_name(op: PowerCommandOperation) -> Seq<char> {
    match op {
        PowerCommandOperation::RegisterCommands => "RegisterCommands"@,
        PowerCommandOperation::Estimate => "Estimate"@,
        PowerCommandOperation::FreeInfo => "FreeInfo"@,
        PowerCommandOperation::Print => "Print"@,
    }
}

/// The message of an error.
pub open spec fn error_text(e: PowerCommandError) -> Seq<char> {
    match e {
        PowerCommandError::MissingNativeSupport { operation } => "operation "@ + operation_name(operation)
            + " requires native network support"@,
        PowerCommandError::TooManyArguments { usage, .. } => usage@,
        PowerCommandError::Backend(message) => message@,
    }
}

impl PowerCommandError {
    /// The message describing the error.
    pub fn message(&self) -> (r: String)
        ensures
            r@ == error_text(*self),
    {
        let mut s = String::new();
        match self {
            PowerCommandError::MissingNativeSupport { operation } => {
                push_str(&mut s, "operation ");
                match operation {
                    PowerCommandOperation::RegisterCommands => push_str(&mut s, "RegisterCommands"),
                    PowerCommandOperation::Estimate => push_str(&mut s, "Estimate"),
                    PowerCommandOperation::FreeInfo => push_str(&mut s, "FreeInfo"),
                    PowerCommandOperation::Print => push_str(&mut s, "Print"),
                }
                push_str(&mut s, " requires native network support");
            },
            PowerCommandError::TooManyArguments { usage, .. } => {
                push_str(&mut s, usage);
            },
            PowerCommandError::Backend(message) => {
                push_str(&mut s, message.as_str());
            },
        }
        assert(s@ =~= error_text(*self));
        s
    }
}

/// The power routines that the commands run, supplied by the caller.
pub trait PowerCommandBackend {
    fn power_command_line_interface(&mut self, argv: &[String]) -> Result<i32, PowerCommandError>;

    fn free_power_info(&mut self) -> Result<i32, PowerCommandError>;

    fn print_power_info(&mut self) -> Result<i32, PowerCommandError>;
}

/// A backend whose every routine is unavailable.
#[derive(Default)]
pub struct MissingPowerCommandBackend;

impl PowerCommandBackend for MissingPowerCommandBackend {
    fn power_command_line_interface(&mut self, _argv: &[String]) -> (r: Result<i32, PowerCommandError>)
        ensures
            r == Err::<i32, PowerCommandError>(PowerCommandError::MissingNativeSupport { operation: PowerCommandOperation::Estimate }),
    {
        Err(missing(PowerCommandOperation::Estimate))
    }

    fn free_power_info(&mut self) -> (r: Result<i32, PowerCommandError>)
        ensures
            r == Err::<i32, PowerCommandError>(PowerCommandError::MissingNativeSupport { operation: PowerCommandOperation::FreeInfo }),
    {
        Err(missing(PowerCommandOperation::FreeInfo))
    }

    fn print_power_info(&mut self) -> (r: Result<i32, PowerCommandError>)
        ensures
            r == Err::<i32, PowerCommandError>(PowerCommandError::MissingNativeSupport { operation: PowerCommandOperation::Print }),
    {
        Err(missing(PowerCommandOperation::Print))
    }
}

pub fn power_command_registrations() -> (r: Vec<CommandRegistration>)
    ensures
        r@.len() == 3,
        r@[0].name == "power_estimate" && r@[0].kind == PowerCommandKind::Estimate && r@[0].changes_network,
        r@[1].name == "power_free_info" && r@[1].kind == PowerCommandKind::FreeInfo && r@[1].changes_network,
        r@[2].name == "power_print" && r@[2].kind == PowerCommandKind::Print && !r@[2].changes_network,
{
    power_commands()
}

/// Registering the commands in a native command table: not available.
pub fn register_power_commands() -> (r: Result<Vec<CommandRegistration>, PowerCommandError>)
    ensures
        r == Err::<Vec<CommandRegistration>, PowerCommandError>(
            PowerCommandError::MissingNativeSupport { operation: PowerCommandOperation::RegisterCommands },
        ),
{
    Err(missing(PowerCommandOperation::RegisterCommands))
}

/// The error of a utility command given arguments beyond its name.
pub open spec fn usage_error(invocation: PowerCommandInvocation) -> Option<PowerCommandError> {
    match invocation.kind {
        PowerCommandKind::Estimate => None,
        PowerCommandKind::FreeInfo => if invocation.argv@.len() != 1 {
            Some(PowerCommandError::TooManyArguments { command: PowerCommandKind::FreeInfo, usage: POWER_FREE_INFO_USAGE })
        } else {
            None
        },
        PowerCommandKind::Print => if invocation.argv@.len() != 1 {
            Some(PowerCommandError::TooManyArguments { command: PowerCommandKind::Print, usage: POWER_PRINT_USAGE })
        } else {
            None
        },
    }
}

/// Runs a command: the estimate gets the whole argument list; a utility
/// command with arguments beyond its name fails with its usage, and
/// otherwise runs its routine. What a routine returns is returned.
pub fn dispatch_power_command<B: PowerCommandBackend>(backend: &mut B, invocation: &PowerCommandInvocation) -> (r: Result<i32, PowerCommandError>)
    ensures
        usage_error(*invocation) matches Some(e) ==> r == Err::<i32, PowerCommandError>(e) && *final(backend) == *old(backend),
        invocation.kind == PowerCommandKind::Estimate ==> exists|a: &mut B, argv: &[String]| *a == *old(backend)
            && *final(a) == *final(backend) && argv@ == invocation.argv@
            && call_ensures(B::power_command_line_interface, (a, argv), r),
        invocation.kind == PowerCommandKind::FreeInfo && usage_error(*invocation) is None ==> exists|a: &mut B|
            *a == *old(backend) && *final(a) == *final(backend) && call_ensures(B::free_power_info, (a,), r),
        invocation.kind == PowerCommandKind::Print && usage_error(*invocation) is None ==> exists|a: &mut B|
            *a == *old(backend) && *final(a) == *final(backend) && call_ensures(B::print_power_info, (a,), r),
{
    match invocation.kind {
        PowerCommandKind::Estimate => {
            let f = B::power_command_line_interface;
            f(backend, invocation.argv.as_slice())
        },
        PowerCommandKind::FreeInfo => {
            if let Err(e) = require_no_user_arguments(invocation, POWER_FREE_INFO_USAGE) {
                return Err(e);
            }
            let f = B::free_power_info;
            f(backend)
        },
        PowerCommandKind::Print => {
            if let Err(e) = require_no_user_arguments(invocation, POWER_PRINT_USAGE) {
                return Err(e);
            }
            let f = B::print_power_info;
            f(backend)
        },
    }
}

/// Runs a command on a backend whose routines are all unavailable.
pub fn execute_with_missing_dependencies(invocation: &PowerCommandInvocation) -> (r: Result<i32, PowerCommandError>)
    ensures
        r is Err,
        usage_error(*invocation) matches Some(e) ==> r == Err::<i32, PowerCommandError>(e),
        usage_error(*invocation) is None ==> r == Err::<i32, PowerCommandError>(PowerCommandError::MissingNativeSupport {
            operation: match invocation.kind {
                PowerCommandKind::Estimate => PowerCommandOperation::Estimate,
                PowerCommandKind::FreeInfo => PowerCommandOperation::FreeInfo,
                PowerCommandKind::Print => PowerCommandOperation::Print,
            },
        }),
{
    let mut backend = MissingPowerCommandBackend;
    match invocation.kind {
        PowerCommandKind::Estimate => backend.power_command_line_interface(invocation.argv.as_slice()),
        PowerCommandKind::FreeInfo => {
            if let Err(e) = require_no_user_arguments(invocation, POWER_FREE_INFO_USAGE) {
                return Err(e);
            }
            backend.free_power_info()
        },
        PowerCommandKind::Print => {
            if let Err(e) = require_no_user_arguments(invocation, POWER_PRINT_USAGE) {
                return Err(e);
            }
            backend.print_power_info()
        },
    }
}

fn require_no_user_arguments(invocation: &PowerCommandInvocation, usage: &'static str) -> (r: Result<(), PowerCommandError>)
    ensures
        invocation.argv@.len() != 1 ==> r == Err::<(), PowerCommandError>(
            PowerCommandError::TooManyArguments { command: invocation.kind, usage },
        ),
        invocation.argv@.len() == 1 ==> r is Ok,
{
    if invocation.argc() != 1 {
        return Err(PowerCommandError::TooManyArguments { command: invocation.kind, usage });
    }
    Ok(())
}

fn missing(operation: PowerCommandOperation) -> (r: PowerCommandError)
    ensures
        r == (PowerCommandError::MissingNativeSupport { operation }),
{
    PowerCommandError::MissingNativeSupport { operation }
}

} // verus!
