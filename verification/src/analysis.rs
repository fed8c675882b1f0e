//! The analyses that lowering consults: which blocks head loops and how deep
//! each block is nested in loops, and which values are live where.

use vstd::prelude::*;
use crate::error::StackifyError;
use crate::hir::{Block, ProgramPoint, Value};

verus! {

/// Identifies a loop.
pub type LoopId = u32;

/// Whether `value` occurs in `values`.
pub fn contains_value(values: &[Value], value: Value) -> (found: bool)
    ensures
        found == values@.contains(value),
{
    let mut k: usize = 0;
    while k < values.len()
        invariant
            k <= values@.len(),
            forall|j: int| 0 <= j < k ==> values@[j] != value,
        decreases values@.len() - k,
    {
        if values[k] == value {
            return true;
        }
        k = k + 1;
    }
    false
}

/// The loops of a function, as far as lowering reads them.
#[derive(Clone, Debug, PartialEq, Eq)]
pub struct LoopAnalysis {
    /// For each block, the loop that it heads, if it heads one.
    pub headers: Vec<Option<LoopId>>,
    /// For each block, the number of loops that it lies in.
    pub levels: Vec<usize>,
}

impl LoopAnalysis {
    /// The loop that `block` heads, if it heads one. A block that the
    /// analysis does not know heads none.
    pub open spec fn header_of(&self, block: Block) -> Option<LoopId> {
        if (block as int) < self.headers@.len() {
            self.headers@[block as int]
        } else {
            None
        }
    }

    /// The number of loops that `block` lies in. A block that the analysis
    /// does not know lies in none.
    pub open spec fn level_of(&self, block: Block) -> nat {
        if (block as int) < self.levels@.len() {
            self.levels@[block as int] as nat
        } else {
            0
        }
    }

    /// The loop that `block` heads, if it heads one.
    pub fn is_loop_header(&self, block: Block) -> (header: Option<LoopId>)
        ensures
            header == self.header_of(block),
    {
        if (block as usize) < self.headers.len() {
            self.headers[block as usize]
        } else {
            None
        }
    }

    /// The number of loops that `block` lies in.
    pub fn loop_level(&self, block: Block) -> (level: usize)
        ensures
            level == self.level_of(block),
    {
        if (block as usize) < self.levels.len() {
            self.levels[block as usize]
        } else {
            0
        }
    }
}

/// The live values of a function at its program points.
#[derive(Clone, Debug, PartialEq, Eq)]
pub struct LivenessAnalysis {
    /// For each block, the values that are live when it is entered.
    pub live_at_block: Vec<Vec<Value>>,
    /// For each block, the values that are live when it is left.
    pub live_after_block: Vec<Vec<Value>>,
    /// For each instruction, the values that are live just before it.
    pub live_at_inst: Vec<Vec<Value>>,
    /// For each instruction, the values that are live just after it.
    pub live_after_inst: Vec<Vec<Value>>,
}

/// Whether `value` is listed in the row `at` of `table`; a row that the table
/// lacks lists nothing.
pub open spec fn listed(table: Seq<Vec<Value>>, at: int, value: Value) -> bool {
    0 <= at < table.len() && table[at]@.contains(value)
}

/// Whether `value` is listed in the row `at` of `table`.
fn is_listed(table: &Vec<Vec<Value>>, at: usize, value: Value) -> (found: bool)
    ensures
        found == listed(table@, at as int, value),
{
    if at < table.len() {
        contains_value(table[at].as_slice(), value)
    } else {
        false
    }
}

impl LivenessAnalysis {
    /// Whether `value` is live when the program point is reached.
    pub open spec fn live_at(&self, value: Value, pp: ProgramPoint) -> bool {
        match pp {
            ProgramPoint::Block(block) => listed(self.live_at_block@, block as int, value),
            ProgramPoint::Inst(inst) => listed(self.live_at_inst@, inst as int, value),
        }
    }

    /// Whether `value` is live when the program point has been passed.
    pub open spec fn live_after(&self, value: Value, pp: ProgramPoint) -> bool {
        match pp {
            ProgramPoint::Block(block) => listed(self.live_after_block@, block as int, value),
            ProgramPoint::Inst(inst) => listed(self.live_after_inst@, inst as int, value),
        }
    }

    /// Whether `value` is live when the program point is reached.
    pub fn is_live_at(&self, value: Value, pp: ProgramPoint) -> (live: bool)
        ensures
            live == self.live_at(value, pp),
    {
        match pp {
            ProgramPoint::Block(block) => is_listed(&self.live_at_block, block as usize, value),
            ProgramPoint::Inst(inst) => is_listed(&self.live_at_inst, inst as usize, value),
        }
    }

    /// Whether `value` is live when the program point has been passed.
    pub fn is_live_after(&self, value: Value, pp: ProgramPoint) -> (live: bool)
        ensures
            live == self.live_after(value, pp),
    {
        match pp {
            ProgramPoint::Block(block) => is_listed(&self.live_after_block, block as usize, value),
            ProgramPoint::Inst(inst) => is_listed(&self.live_after_inst, inst as usize, value),
        }
    }
}

/// The analyses of one function; each is there once it has been computed.
#[derive(Clone, Debug, PartialEq, Eq)]
pub struct FunctionAnalysis {
    pub loops: Option<LoopAnalysis>,
    pub liveness: Option<LivenessAnalysis>,
}

impl FunctionAnalysis {
    /// Whether every analysis is there.
    pub open spec fn complete(&self) -> bool {
        self.loops is Some && self.liveness is Some
    }

    /// Succeeds if every analysis is there.
    pub fn require_all(&self) -> (result: Result<(), StackifyError>)
        ensures
            self.complete() ==> result is Ok,
            !self.complete() ==> result == Err::<(), StackifyError>(StackifyError::MissingAnalysis),
    {
        if self.loops.is_some() && self.liveness.is_some() {
            Ok(())
        } else {
            Err(StackifyError::MissingAnalysis)
        }
    }

    /// The loop analysis.
    pub fn loops(&self) -> (loops: &LoopAnalysis)
        requires
            self.loops is Some,
        ensures
            *loops == self.loops->0,
    {
        self.loops.as_ref().unwrap()
    }

    /// The liveness analysis.
    pub fn liveness(&self) -> (liveness: &LivenessAnalysis)
        requires
            self.liveness is Some,
        ensures
            *liveness == self.liveness->0,
    {
        self.liveness.as_ref().unwrap()
    }
}

} // verus!
