//! Argument-arity declarations for interpreter commands: how many
//! arguments a command handler accepts.

use vstd::prelude::*;

verus! {

/// How many arguments one handler of a command takes: none, an exact
/// amount, a lower or upper bound, a closed range, or anything.
#[derive(Debug, Clone, Copy)]
pub enum CommandArgs {
    Zero,
    Amount(usize),
    Minimum(usize),
    Maximum(usize),
    Range { min: usize, max: usize },
    VarArgs,
}

/// Whether a handler declared with `arity` accepts `num_args` arguments.
pub open spec fn arity_matches(arity: CommandArgs, num_args: usize) -> bool {
    match arity {
        CommandArgs::Zero => num_args == 0,
        CommandArgs::Amount(n) => num_args == n,
        CommandArgs::Range { min, max } => min <= num_args && num_args <= max,
        CommandArgs::Minimum(min) => min <= num_args,
        CommandArgs::Maximum(max) => max >= num_args,
        CommandArgs::VarArgs => true,
    }
}

impl CommandArgs {
    /// Decides whether this arity accepts the given argument count.
    pub fn matches(&self, num_args: usize) -> (r: bool)
        ensures
            r == arity_matches(*self, num_args),
    {
        match self {
            CommandArgs::Zero => num_args == 0,
            CommandArgs::Amount(n) => num_args == *n,
            CommandArgs::Range { min, max } => *min <= num_args && num_args <= *max,
            CommandArgs::Minimum(min) => *min <= num_args,
            CommandArgs::Maximum(max) => *max >= num_args,
            CommandArgs::VarArgs => true,
        }
    }
}

} // verus!
