//! Registration data of the private `_test` command.

use vstd::prelude::*;

verus! {

/// A command name with its handler and whether it changes the network.
#[derive(Clone, Copy, Debug, Eq, PartialEq)]
pub struct CommandRegistration {
    pub name: &'static str,
    pub handler: CommandHandler,
    pub changes_network: bool,
}

/// The routine that carries out a command, and the module holding it.
#[derive(Clone, Copy, Debug, Eq, PartialEq)]
pub struct CommandHandler {
    pub c_symbol: &'static str,
    pub source_file: &'static str,
}

/// Why the registration is only described, not performed.
pub const INIT_TEST_BLOCKER: &'static str =
    "Registration can be wired into a command registry once com_test is available.";

/// The handler of the `_test` command.
pub open spec fn spec_test_command_handler() -> CommandHandler {
    CommandHandler { c_symbol: "com_test", source_file: "test/example" }
}

/// The handler of the `_test` command: `com_test` in the example module.
pub fn test_command_handler() -> (r: CommandHandler)
    ensures
        r == spec_test_command_handler(),
{
    CommandHandler { c_symbol: "com_test", source_file: "test/example" }
}

/// The registration of `_test`: handled by `com_test`, changes the network.
pub fn init_test_registration() -> (r: CommandRegistration)
    ensures
        r == (CommandRegistration { name: "_test", handler: spec_test_command_handler(), changes_network: true }),
{
    CommandRegistration { name: "_test", handler: test_command_handler(), changes_network: true }
}

/// Whether the startup hook is only described (it is).
pub fn init_test_is_scaffolded() -> (r: bool)
    ensures
        r,
{
    true
}

} // verus!
