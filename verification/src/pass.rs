//! The pass as its users see it.

use vstd::prelude::*;
use crate::analysis::FunctionAnalysis;
use crate::emitter::MasmEmitter;
use crate::error::StackifyError;
use crate::hir::{Function, Program};
use crate::masm;
use crate::emitter::{framed, loops_on};
use crate::masm::{net_effect, Op};
use crate::operand_stack::{Entry, Operand, OperandStack};
use crate::walk::{emit_walk, Setting, Step, Walk};

verus! {

/// The pass that lowers SSA functions of a program to functions of the stack
/// machine.
pub struct Stackify<'a> {
    program: &'a Program,
    analysis: &'a FunctionAnalysis,
}

/// The stack that a function is entered with: its parameters, the first on
/// top.
pub open spec fn entry_stack(params: Seq<u32>) -> Seq<Entry> {
    Seq::new(params.len(), |i: int| Entry::plain(Operand::Value(params[i])))
}

/// What the walk over `f` is given.
pub open spec fn setting_of(program: &Program, analysis: &FunctionAnalysis, f: &Function) -> Setting {
    Setting {
        program: *program,
        function: *f,
        loops: analysis.loops->0,
        liveness: analysis.liveness->0,
    }
}

/// The walk over `f` from its entry block, which is entered with the
/// parameters of the function on the stack, and the stack that the lowering
/// of the entry block ends with.
pub open spec fn entry_walk(program: &Program, analysis: &FunctionAnalysis, f: &Function) -> Step {
    emit_walk(
        setting_of(program, analysis, f),
        Walk::start(f),
        None,
        None,
        f.entry,
        0,
        entry_stack(f.blocks@[f.entry as int].params@),
    )
}

/// What lowering `f` comes to: the operations of each block of the new
/// function, or the reason for which there is none. An analysis that is
/// missing is reported first, a function that is not sound next; then the
/// function is walked.
pub open spec fn lowering(program: &Program, analysis: &FunctionAnalysis, f: &Function) -> Result<
    Seq<Seq<Op>>,
    StackifyError,
> {
    if !analysis.complete() {
        Err(StackifyError::MissingAnalysis)
    } else if !f.wf() {
        Err(StackifyError::MalformedFunction)
    } else {
        match entry_walk(program, analysis, f) {
            Err(e) => Err(e),
            Ok((walk, _)) => Ok(walk.blocks),
        }
    }
}

impl<'a> Stackify<'a> {
    /// The program that the pass lowers functions of.
    pub closed spec fn program(&self) -> &Program {
        self.program
    }

    /// The analyses of the function that the pass is to lower.
    pub closed spec fn analysis(&self) -> &FunctionAnalysis {
        self.analysis
    }

    /// The pass for the functions of `program` with the analyses `analysis`.
    pub fn new(program: &'a Program, analysis: &'a FunctionAnalysis) -> (pass: Self)
        ensures
            pass.program() == program,
            pass.analysis() == analysis,
    {
        Stackify { program, analysis }
    }

    /// Lowers `f`: the function that is handed back has the identifier of
    /// `f`, starts with its first block, passes control only to blocks of
    /// its own, and holds in each block the operations that the walk over `f`
    /// writes there. The net effect of the first block is the change in the
    /// depth of the stack from the parameters to what the first block ends
    /// with. Where every return that the walk comes to is entered from a
    /// block within a loop, every path through what was written, into
    /// every loop and either arm of every conditional, ends with a push of a
    /// loop condition. Fails if an analysis is missing, if
    /// the function is not sound, or where the walk fails.
    pub fn run(&mut self, f: &Function) -> (result: Result<masm::Function, StackifyError>)
        ensures
            final(self).program() == old(self).program(),
            final(self).analysis() == old(self).analysis(),
            match lowering(old(self).program(), old(self).analysis(), f) {
                Ok(blocks) => result is Ok && result->Ok_0@ == blocks,
                Err(e) => result is Err && result->Err_0 == e,
            },
            result matches Ok(lowered) ==> {
                &&& lowered.id == f.id
                &&& lowered.body == 0
                &&& lowered.blocks@.len() >= 1
                &&& lowered.wf()
            },
            result is Ok ==> net_effect(result->Ok_0@[0]) == entry_walk(
                old(self).program(),
                old(self).analysis(),
                f,
            )->Ok_0.1.len() - f.blocks@[f.entry as int].params@.len(),
            forall|fuel: nat|
                result is Ok && #[trigger] loops_on(
                    setting_of(old(self).program(), old(self).analysis(), f),
                    Set::empty(),
                    None,
                    f.entry,
                    fuel,
                ) ==> framed(result->Ok_0@, 0, 1),
    {
        match self.analysis.require_all() {
            Ok(_) => {},
            Err(e) => {
                return Err(e);
            },
        }
        if !f.validate() {
            return Err(StackifyError::MalformedFunction);
        }
        let f_prime = masm::Function::new(f.id);
        let ghost start = f_prime;
        proof {
            assert(f_prime@ =~= Walk::start(f).blocks);
        }
        let loops = self.analysis.loops();
        let liveness = self.analysis.liveness();
        let mut emitter = MasmEmitter::new(self.program, f, f_prime, loops, liveness);
        let stack = entry_operands(f);
        match emitter.emit(f.entry, 0, stack) {
            Ok(_) => {},
            Err(e) => {
                return Err(e);
            },
        }
        let lowered = emitter.finish();
        proof {
            assert(crate::masm::written(lowered@[0], start@[0]) =~= lowered@[0]);
        }
        Ok(lowered)
    }
}

/// The stack that `f` is entered with.
pub fn entry_operands(f: &Function) -> (stack: OperandStack)
    requires
        f.wf(),
    ensures
        stack@ == entry_stack(f.blocks@[f.entry as int].params@),
{
    let mut stack = OperandStack::new();
    let params = f.block_args(f.entry);
    let mut i: usize = params.len();
    assert(stack@ =~= entry_stack(params@).skip(i as int));
    while i > 0
        invariant
            i <= params@.len(),
            stack@ == entry_stack(params@).skip(i as int),
        decreases i,
    {
        i = i - 1;
        stack.push(Operand::Value(params[i]));
        assert(stack@ =~= entry_stack(params@).skip(i as int));
    }
    assert(entry_stack(params@).skip(0) =~= entry_stack(params@));
    stack
}

} // verus!
