//! Command dispatch for the surrounding command layer: which command a name
//! denotes, what it needs from the store, and how many arguments it accepts,
//! checked before anything runs. The layer itself (prompting, printing,
//! file I/O) stays outside the library.

use crate::order::str_eq;
use vstd::prelude::*;

verus! {

/// What a command needs from the store.
#[derive(Clone, Copy, Debug, PartialEq, Eq, Structural)]
pub enum HandlerKind {
    /// Runs without the store.
    NoStore,
    /// Reads the store.
    ReadsStore,
    /// Mutates the store.
    MutatesStore,
}

/// One command: what it needs from the store, and the least and greatest
/// argument counts it accepts.
#[derive(Clone, Copy, Debug, PartialEq, Eq, Structural)]
pub struct CommandInfo {
    /// What the command needs from the store.
    pub kind: HandlerKind,
    /// The least argument count the command accepts.
    pub min_args: usize,
    /// The greatest argument count the command accepts.
    pub max_args: usize,
}

/// The command a name denotes, if any.
pub open spec fn spec_lookup(name: Seq<char>) -> Option<CommandInfo> {
    if name == "add"@ {
        Some(CommandInfo { kind: HandlerKind::MutatesStore, min_args: 2, max_args: 2 })
    } else if name == "remove"@ {
        Some(CommandInfo { kind: HandlerKind::MutatesStore, min_args: 1, max_args: 1 })
    } else if name == "view"@ {
        Some(CommandInfo { kind: HandlerKind::ReadsStore, min_args: 0, max_args: 1 })
    } else if name == "save"@ {
        Some(CommandInfo { kind: HandlerKind::ReadsStore, min_args: 1, max_args: 1 })
    } else if name == "load"@ {
        Some(CommandInfo { kind: HandlerKind::MutatesStore, min_args: 1, max_args: 1 })
    } else if name == "gen"@ {
        Some(CommandInfo { kind: HandlerKind::NoStore, min_args: 0, max_args: 1 })
    } else if name == "help"@ {
        Some(CommandInfo { kind: HandlerKind::NoStore, min_args: 0, max_args: 1 })
    } else {
        None
    }
}

/// Finds the command a name denotes.
pub fn lookup(name: &str) -> (r: Option<CommandInfo>)
    ensures
        r == spec_lookup(name@),
{
    if str_eq(name, "add") {
        Some(CommandInfo { kind: HandlerKind::MutatesStore, min_args: 2, max_args: 2 })
    } else if str_eq(name, "remove") {
        Some(CommandInfo { kind: HandlerKind::MutatesStore, min_args: 1, max_args: 1 })
    } else if str_eq(name, "view") {
        Some(CommandInfo { kind: HandlerKind::ReadsStore, min_args: 0, max_args: 1 })
    } else if str_eq(name, "save") {
        Some(CommandInfo { kind: HandlerKind::ReadsStore, min_args: 1, max_args: 1 })
    } else if str_eq(name, "load") {
        Some(CommandInfo { kind: HandlerKind::MutatesStore, min_args: 1, max_args: 1 })
    } else if str_eq(name, "gen") {
        Some(CommandInfo { kind: HandlerKind::NoStore, min_args: 0, max_args: 1 })
    } else if str_eq(name, "help") {
        Some(CommandInfo { kind: HandlerKind::NoStore, min_args: 0, max_args: 1 })
    } else {
        None
    }
}

/// What one command line means.
#[derive(Clone, Copy, Debug, PartialEq, Eq, Structural)]
pub enum DispatchDecision {
    /// Run a handler of this kind.
    Run(HandlerKind),
    /// The name denotes no command.
    UnknownCommand,
    /// Fewer arguments than the command's least count, which is carried.
    TooFewArgs(usize),
    /// More arguments than the command's greatest count, which is carried.
    TooManyArgs(usize),
}

/// The decision for a command name with `arg_count` arguments.
pub open spec fn spec_dispatch(name: Seq<char>, arg_count: usize) -> DispatchDecision {
    match spec_lookup(name) {
        Option::None => DispatchDecision::UnknownCommand,
        Option::Some(c) => {
            if arg_count < c.min_args {
                DispatchDecision::TooFewArgs(c.min_args)
            } else if arg_count > c.max_args {
                DispatchDecision::TooManyArgs(c.max_args)
            } else {
                DispatchDecision::Run(c.kind)
            }
        },
    }
}

/// Decides what a command line means: an unknown name, too few or too many
/// arguments, or the kind of handler to run, arity checked before dispatch.
pub fn dispatch(name: &str, arg_count: usize) -> (r: DispatchDecision)
    ensures
        r == spec_dispatch(name@, arg_count),
{
    match lookup(name) {
        Option::None => DispatchDecision::UnknownCommand,
        Option::Some(c) => {
            if arg_count < c.min_args {
                DispatchDecision::TooFewArgs(c.min_args)
            } else if arg_count > c.max_args {
                DispatchDecision::TooManyArgs(c.max_args)
            } else {
                DispatchDecision::Run(c.kind)
            }
        },
    }
}

} // verus!
