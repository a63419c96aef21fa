//! The sample `test [-c] n1 n2` command: argument parsing. The command
//! rewrites `n1` as `(n1 / n2) & n2 | remainder`, optionally dividing by the
//! complement of `n2`; the rewrite itself needs the network and node layers.

use vstd::prelude::*;
use crate::text::chars_of;

verus! {

pub const USAGE: &'static str = "usage: test [-c] n1 n2\n    -c\t\tuse complement of n2 in division\n";

/// The node-level operations the rewrite needs and this library does not provide.
pub open spec fn spec_required_operations() -> Seq<&'static str> {
    seq!["get-nodes", "divide", "invert", "and-or-literal", "free", "node-helpers"]
}

/// A parsed `test` command.
#[derive(Clone, Debug, Eq, PartialEq)]
pub struct ExampleCommand {
    pub target_node: String,
    pub divisor_node: String,
    pub use_complement: bool,
}

/// Why a `test` command line was rejected.
#[derive(Clone, Debug, Eq, PartialEq)]
pub enum ExampleCommandError {
    UnsupportedOption(String),
    WrongArity { actual: usize },
}

/// Whether the rewrite can run here: it cannot, the node layer is missing.
#[derive(Clone, Copy, Debug, Eq, PartialEq, Structural)]
pub enum ExamplePortDisposition {
    BlockedByMissingNodeAndCommandApis,
}

pub fn example_port_disposition() -> (r: ExamplePortDisposition)
    ensures
        r == ExamplePortDisposition::BlockedByMissingNodeAndCommandApis,
{
    ExamplePortDisposition::BlockedByMissingNodeAndCommandApis
}

pub fn example_port_is_blocked() -> (r: bool)
    ensures
        r,
{
    example_port_disposition() == ExamplePortDisposition::BlockedByMissingNodeAndCommandApis
}

/// The node-level operations the rewrite needs.
pub fn required_port_beads() -> (r: Vec<&'static str>)
    ensures
        r@ == spec_required_operations(),
{
    let r = vec!["get-nodes", "divide", "invert", "and-or-literal", "free", "node-helpers"];
    assert(r@ =~= spec_required_operations());
    r
}

/// Whether an argument is the `-c` flag.
pub open spec fn is_complement_flag(a: Seq<char>) -> bool {
    a == seq!['-', 'c']
}

/// Whether an argument is an option other than `-c`.
pub open spec fn is_bad_option(a: Seq<char>) -> bool {
    a.len() > 0 && a[0] == '-' && !is_complement_flag(a)
}

/// The operands (arguments that are not options) of an argument list.
pub open spec fn operands(args: Seq<Seq<char>>) -> Seq<Seq<char>>
    decreases args.len(),
{
    if args.len() == 0 {
        seq![]
    } else {
        let rest = operands(args.drop_last());
        if args.last().len() > 0 && args.last()[0] == '-' { rest } else { rest.push(args.last()) }
    }
}

/// The views of a sequence of strings.
pub open spec fn string_views(s: Seq<String>) -> Seq<Seq<char>> {
    Seq::new(s.len(), |i: int| s[i]@)
}

/// The views of the arguments.
pub open spec fn arg_views(args: Seq<&str>) -> Seq<Seq<char>> {
    Seq::new(args.len(), |i: int| args[i]@)
}

pub fn arg_is_complement_flag(a: &str) -> (r: bool)
    ensures
        r == is_complement_flag(a@),
{
    let cs = chars_of(a);
    let r = cs.len() == 2 && cs[0] == '-' && cs[1] == 'c';
    assert(r ==> cs@ =~= seq!['-', 'c']);
    r
}

pub fn arg_is_option(a: &str) -> (r: bool)
    ensures
        r == (a@.len() > 0 && a@[0] == '-'),
{
    let cs = chars_of(a);
    cs.len() > 0 && cs[0] == '-'
}

/// Parses `test [-c] n1 n2`. The first option other than `-c` is rejected;
/// otherwise there must be exactly two operands.
pub fn parse_example_command_args(args: &[&str]) -> (r: Result<ExampleCommand, ExampleCommandError>)
    ensures
        ({
            let a = arg_views(args@);
            let ops = operands(a);
            if exists|i: int| 0 <= i < a.len() && is_bad_option(a[i]) {
                exists|i: int| 0 <= i < a.len() && is_bad_option(#[trigger] a[i])
                    && (forall|j: int| 0 <= j < i ==> !is_bad_option(a[j]))
                    && (r matches Err(ExampleCommandError::UnsupportedOption(s)) && s@ == a[i])
            } else if ops.len() == 2 {
                (r matches Ok(c) && c.target_node@ == ops[0] && c.divisor_node@ == ops[1]
                    && c.use_complement == exists|i: int| 0 <= i < a.len() && is_complement_flag(a[i]))
            } else {
                r == Err::<ExampleCommand, ExampleCommandError>(ExampleCommandError::WrongArity { actual: ops.len() as usize })
            }
        }),
{
    let ghost a = arg_views(args@);
    let mut use_complement = false;
    let mut ops: Vec<String> = Vec::new();
    let n = args.len();
    for i in 0..n
        invariant
            n == args@.len(),
            a == arg_views(args@),
            forall|j: int| 0 <= j < i ==> !is_bad_option(a[j]),
            string_views(ops@) == operands(a.take(i as int)),
            use_complement == exists|j: int| 0 <= j < i && is_complement_flag(a[j]),
    {
        let arg = args[i];
        proof {
            assert(a.take(i + 1).drop_last() =~= a.take(i as int));
            assert(a.take(i + 1).last() == a[i as int]);
            assert(arg@ == a[i as int]);
            let t = a.take(i + 1);
            assert(operands(t) == if t.last().len() > 0 && t.last()[0] == '-' {
                operands(t.drop_last())
            } else {
                operands(t.drop_last()).push(t.last())
            });
        }
        if arg_is_complement_flag(arg) {
            use_complement = true;
            proof {
                assert(operands(a.take(i + 1)) == operands(a.take(i as int)));
            }
        } else if arg_is_option(arg) {
            proof {
                assert(is_bad_option(a[i as int]));
                assert(exists|k: int| 0 <= k < a.len() && is_bad_option(a[k]));
            }
            return Err(ExampleCommandError::UnsupportedOption(arg.to_owned()));
        } else {
            let owned = arg.to_owned();
            let ghost prev = ops@;
            ops.push(owned);
            proof {
                let t = a.take(i + 1);
                assert(operands(t) == operands(a.take(i as int)).push(a[i as int]));
                assert(string_views(ops@) =~= string_views(prev).push(owned@));
            }
        }
    }
    proof {
        assert(a.take(n as int) =~= a);
        assert(string_views(ops@) == operands(a));
        assert(!(exists|i: int| 0 <= i < a.len() && is_bad_option(a[i])));
    }
    if ops.len() == 2 {
        let ghost before = ops@;
        assert(string_views(before)[1] == before[1]@);
        assert(string_views(before)[0] == before[0]@);
        let divisor_node = ops.pop().unwrap();
        let target_node = ops.pop().unwrap();
        assert(divisor_node@ == operands(a)[1]);
        assert(target_node@ == operands(a)[0]);
        Ok(ExampleCommand { target_node, divisor_node, use_complement })
    } else {
        Err(ExampleCommandError::WrongArity { actual: ops.len() })
    }
}

} // verus!
