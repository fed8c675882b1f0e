//! What can go wrong while lowering a function.

use vstd::prelude::*;
use crate::hir::{Symbol, Value};

verus! {

/// The broad reason for which lowering was given up.
#[derive(Clone, Copy, Debug, PartialEq, Eq, Hash)]
pub enum ErrorKind {
    /// What the pass relies on was not established before it ran.
    Prerequisite,
    /// The pass found its own bookkeeping contradicted.
    Invariant,
    /// The input asks for something that is not supported yet.
    Unimplemented,
    /// A global could not be resolved to an address.
    Linker,
}

/// Why lowering was given up.
#[derive(Clone, Copy, Debug, PartialEq, Eq, Hash)]
pub enum StackifyError {
    /// An analysis that the pass needs is not available.
    MissingAnalysis,
    /// The function, or an analysis of it, names something that does not exist.
    MalformedFunction,
    /// A block that heads no loop was reached a second time.
    UnexpectedCycle,
    /// A value was looked for on the operand stack and is not there.
    ValueNotFound(Value),
    /// The operand stack holds fewer operands than an instruction takes, or
    /// not the one it takes.
    UnexpectedStackState,
    /// A block is entered with other operands on the stack than when it was
    /// first entered.
    JoinMismatch,
    /// The dependencies of a block cannot be put in an order.
    CyclicDependencies,
    /// A table branch reached the pass.
    UnexpectedSwitch,
    /// An operand lies deeper than a stack operation can reach, or more
    /// operands or blocks are needed than can be counted.
    LimitExceeded,
    /// A signed or floating-point constant was to be pushed.
    UnsupportedImmediate,
    /// A global of more than one field element was to be loaded.
    UnsupportedLoad,
    /// A return hands back no value, or more than one.
    UnsupportedReturn,
    /// A global value names a symbol that the program does not define.
    UndefinedGlobal(Symbol),
    /// The address of a global value does not fit the address space.
    AddressOutOfRange,
}

impl StackifyError {
    /// The broad reason that the error falls under.
    pub open spec fn spec_kind(self) -> ErrorKind {
        match self {
            StackifyError::MissingAnalysis
            | StackifyError::MalformedFunction
            | StackifyError::UnexpectedCycle => ErrorKind::Prerequisite,
            StackifyError::ValueNotFound(_)
            | StackifyError::UnexpectedStackState
            | StackifyError::JoinMismatch
            | StackifyError::CyclicDependencies
            | StackifyError::UnexpectedSwitch
            | StackifyError::LimitExceeded => ErrorKind::Invariant,
            StackifyError::UnsupportedImmediate
            | StackifyError::UnsupportedLoad
            | StackifyError::UnsupportedReturn => ErrorKind::Unimplemented,
            StackifyError::UndefinedGlobal(_) | StackifyError::AddressOutOfRange => ErrorKind::Linker,
        }
    }

    /// The broad reason that the error falls under.
    pub fn kind(&self) -> (kind: ErrorKind)
        ensures
            kind == self.spec_kind(),
    {
        match self {
            StackifyError::MissingAnalysis
            | StackifyError::MalformedFunction
            | StackifyError::UnexpectedCycle => ErrorKind::Prerequisite,
            StackifyError::ValueNotFound(_)
            | StackifyError::UnexpectedStackState
            | StackifyError::JoinMismatch
            | StackifyError::CyclicDependencies
            | StackifyError::UnexpectedSwitch
            | StackifyError::LimitExceeded => ErrorKind::Invariant,
            StackifyError::UnsupportedImmediate
            | StackifyError::UnsupportedLoad
            | StackifyError::UnsupportedReturn => ErrorKind::Unimplemented,
            StackifyError::UndefinedGlobal(_) | StackifyError::AddressOutOfRange => ErrorKind::Linker,
        }
    }
}

} // verus!
