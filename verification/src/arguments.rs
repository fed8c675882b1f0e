//! Putting the values that a branch hands to its destination on top of the
//! operand stack.

use vstd::prelude::*;
use crate::analysis::{contains_value, LivenessAnalysis};
use crate::error::StackifyError;
use crate::hir::{Inst, ProgramPoint, Value};
use crate::masm::{self, lemma_grows_same, Op, MAX_OPERAND_INDEX};
use crate::operand_stack::{
    all_applicable, apply_all, balanced, first_named, lemma_apply_all_concat, lemma_apply_one,
    lemma_first_named, lemma_wrote_manipulations, movup_at, Entry, OperandStack,
};
use crate::primitives::{
    copy_operand_to_position, copy_ops, move_operand_to_position, move_ops,
};
use crate::window::{
    arranged, cycle_ops, lemma_cycle_arranges, lemma_misplaced_bound, lemma_none_assigned,
    lemma_window_from, sort_window, window, window_slots,
};

verus! {

/// Whether the stack needs no preparing for `args`: it holds them on top in
/// order, and none of them is live after `inst`.
pub open spec fn settled(
    stack: Seq<Entry>,
    args: Seq<Value>,
    liveness: &LivenessAnalysis,
    inst: Inst,
) -> bool {
    arranged(stack, args) && forall|i: int|
        0 <= i < args.len() ==> !liveness.live_after(#[trigger] args[i], ProgramPoint::Inst(inst))
}

/// Whether the argument `k` has to be copied rather than moved: its value
/// is live after `inst`, or an argument before it is the same value.
pub open spec fn needs_copy(
    args: Seq<Value>,
    k: int,
    liveness: &LivenessAnalysis,
    inst: Inst,
) -> bool {
    liveness.live_after(args[k], ProgramPoint::Inst(inst)) || args.take(k).contains(args[k])
}

/// Where the argument `k` is fetched from, when the arguments after it are
/// on top already: a copy is taken from the topmost entry of that name, a
/// move takes the topmost one below the arguments already placed.
pub open spec fn fetch_position(
    stack: Seq<Entry>,
    args: Seq<Value>,
    k: int,
    liveness: &LivenessAnalysis,
    inst: Inst,
) -> int {
    if needs_copy(args, k, liveness, inst) {
        first_named(stack, args[k], 0)
    } else {
        first_named(stack, args[k], args.len() - 1 - k)
    }
}

/// Why the argument `k` cannot be fetched, if it cannot.
pub open spec fn fetch_failure(
    stack: Seq<Entry>,
    args: Seq<Value>,
    k: int,
    liveness: &LivenessAnalysis,
    inst: Inst,
) -> Option<StackifyError> {
    let j = fetch_position(stack, args, k, liveness, inst);
    if j >= stack.len() {
        Some(StackifyError::ValueNotFound(args[k]))
    } else if j > MAX_OPERAND_INDEX {
        Some(StackifyError::LimitExceeded)
    } else {
        None
    }
}

/// The operations that fetch the argument `k` to the top.
pub open spec fn fetch_step(
    stack: Seq<Entry>,
    args: Seq<Value>,
    k: int,
    liveness: &LivenessAnalysis,
    inst: Inst,
) -> Seq<Op> {
    let j = fetch_position(stack, args, k, liveness, inst);
    if needs_copy(args, k, liveness, inst) {
        copy_ops(j, 0, false)
    } else {
        move_ops(j, 0, false)
    }
}

/// The operations that fetch the arguments `k` down to 0 to the top, one
/// after the other, up to the first that cannot be fetched.
pub open spec fn fetch_ops(
    stack: Seq<Entry>,
    args: Seq<Value>,
    k: int,
    liveness: &LivenessAnalysis,
    inst: Inst,
) -> Seq<Op>
    decreases k + 1,
{
    if k < 0 || fetch_failure(stack, args, k, liveness, inst) is Some {
        Seq::empty()
    } else {
        let step = fetch_step(stack, args, k, liveness, inst);
        step + fetch_ops(apply_all(step, stack), args, k - 1, liveness, inst)
    }
}

/// Why fetching the arguments `k` down to 0 fails, if it does.
pub open spec fn fetch_error(
    stack: Seq<Entry>,
    args: Seq<Value>,
    k: int,
    liveness: &LivenessAnalysis,
    inst: Inst,
) -> Option<StackifyError>
    decreases k + 1,
{
    if k < 0 {
        None
    } else if fetch_failure(stack, args, k, liveness, inst) is Some {
        fetch_failure(stack, args, k, liveness, inst)
    } else {
        fetch_error(
            apply_all(fetch_step(stack, args, k, liveness, inst), stack),
            args,
            k - 1,
            liveness,
            inst,
        )
    }
}

/// Whether the stack needs no preparing for `args`.
fn is_settled(
    inst: Inst,
    args: &[Value],
    stack: &OperandStack,
    liveness: &LivenessAnalysis,
) -> (result: bool)
    ensures
        result == settled(stack@, args@, liveness, inst),
{
    if args.len() > stack.len() {
        return false;
    }
    let mut i: usize = 0;
    while i < args.len()
        invariant
            i <= args@.len() <= stack@.len(),
            forall|j: int| 0 <= j < i ==> (#[trigger] stack@[j]).names(args@[j]),
            forall|j: int|
                0 <= j < i ==> !liveness.live_after(#[trigger] args@[j], ProgramPoint::Inst(inst)),
        decreases args@.len() - i,
    {
        if !stack.get(i).is_named(args[i]) || liveness.is_live_after(
            args[i],
            ProgramPoint::Inst(inst),
        ) {
            return false;
        }
        i = i + 1;
    }
    true
}

/// Puts the values `args` on top of the stack, the first of them topmost,
/// by fetching them one by one, last argument first: a value that is live
/// after `inst`, or that an earlier argument needs again, is copied; any
/// other is moved. Fails if a value is not on the stack, or lies deeper than
/// a stack operation can reach.
pub fn fetch_arguments(
    inst: Inst,
    args: &[Value],
    stack: &mut OperandStack,
    block: &mut masm::Block,
    liveness: &LivenessAnalysis,
) -> (result: Result<(), StackifyError>)
    ensures
        match result {
            Ok(_) => {
                let ops = fetch_ops(old(stack)@, args@, args@.len() - 1, liveness, inst);
                &&& fetch_error(old(stack)@, args@, args@.len() - 1, liveness, inst) is None
                &&& final(block)@ == old(block)@ + ops
                &&& all_applicable(ops, old(stack)@)
                &&& final(stack)@ == apply_all(ops, old(stack)@)
            },
            Err(e) => fetch_error(old(stack)@, args@, args@.len() - 1, liveness, inst) == Some(e),
        },
        result is Ok ==> arranged(final(stack)@, args@),
        balanced(final(block)@, old(block)@, final(stack)@, old(stack)@),
{
    proof {
        lemma_grows_same(old(block)@);
    }
    let n = args.len();
    let ghost start = stack@;
    let ghost mut done: Seq<Op> = Seq::empty();
    let mut k: usize = n;
    proof {
        assert(done + fetch_ops(start, args@, n - 1, liveness, inst) =~= fetch_ops(
            start,
            args@,
            n - 1,
            liveness,
            inst,
        ));
        lemma_apply_all_concat(Seq::empty(), Seq::empty(), start);
    }
    while k > 0
        invariant
            n == args@.len(),
            k <= n,
            start == old(stack)@,
            block@ == old(block)@ + done,
            balanced(block@, old(block)@, stack@, start),
            all_applicable(done, start),
            apply_all(done, start) == stack@,
            done + fetch_ops(stack@, args@, k - 1, liveness, inst) == fetch_ops(
                start,
                args@,
                n - 1,
                liveness,
                inst,
            ),
            fetch_error(stack@, args@, k - 1, liveness, inst) == fetch_error(
                start,
                args@,
                n - 1,
                liveness,
                inst,
            ),
            n - k <= stack@.len(),
        decreases k,
    {
        k = k - 1;
        let value = args[k];
        let placed: usize = n - 1 - k;
        let ghost before = stack@;
        let copy = liveness.is_live_after(value, ProgramPoint::Inst(inst)) || contains_value(
            slice_take(args, k),
            value,
        );
        assert(copy == needs_copy(args@, k as int, liveness, inst));
        let found = if copy {
            stack.find_from(value, 0)
        } else {
            stack.find_from(value, placed)
        };
        let j = match found {
            Some(j) => j,
            None => {
                return Err(StackifyError::ValueNotFound(value));
            },
        };
        if j > MAX_OPERAND_INDEX {
            return Err(StackifyError::LimitExceeded);
        }
        assert(j == fetch_position(before, args@, k as int, liveness, inst));
        assert(fetch_failure(before, args@, k as int, liveness, inst) is None);
        let ghost step = fetch_step(before, args@, k as int, liveness, inst);
        if copy {
            copy_operand_to_position(j, 0, false, stack, block);
        } else {
            move_operand_to_position(j, 0, false, stack, block);
        }
        proof {
            lemma_apply_all_concat(done, step, start);
            assert(block@ =~= old(block)@ + (done + step));
            assert((done + step) + fetch_ops(stack@, args@, k - 1, liveness, inst) =~= done
                + fetch_ops(before, args@, k as int, liveness, inst));
            done = done + step;
            lemma_wrote_manipulations(old(block)@, done, start);
        }
    }
    proof {
        assert(done + Seq::<Op>::empty() =~= done);
        lemma_fetch_arranges(start, args@, n - 1, liveness, inst);
    }
    Ok(())
}

/// The operations that put `args` on top of `stack`: none if the stack is
/// settled; swaps along the cycles of the permutation if the arguments are
/// in the window and stay there; else the fetches of the arguments one by
/// one.
pub open spec fn prepare_ops(
    stack: Seq<Entry>,
    args: Seq<Value>,
    liveness: &LivenessAnalysis,
    inst: Inst,
) -> Seq<Op> {
    if settled(stack, args, liveness, inst) {
        Seq::empty()
    } else {
        match window(stack, args, liveness, inst) {
            Some(slots) => cycle_ops(slots, 2 * args.len()),
            None => fetch_ops(stack, args, args.len() - 1, liveness, inst),
        }
    }
}

/// Why `args` cannot be put on top of `stack`, if they cannot.
pub open spec fn prepare_error(
    stack: Seq<Entry>,
    args: Seq<Value>,
    liveness: &LivenessAnalysis,
    inst: Inst,
) -> Option<StackifyError> {
    if settled(stack, args, liveness, inst) || window(stack, args, liveness, inst) is Some {
        None
    } else {
        fetch_error(stack, args, args.len() - 1, liveness, inst)
    }
}

/// The fetches of the arguments `k` down to 0, once those after `k` are on
/// top, find the stack deep enough, and they leave all the arguments on top
/// of it, the first topmost.
pub proof fn lemma_fetch_arranges(
    stack: Seq<Entry>,
    args: Seq<Value>,
    k: int,
    liveness: &LivenessAnalysis,
    inst: Inst,
)
    requires
        -1 <= k < args.len(),
        fetch_error(stack, args, k, liveness, inst) is None,
        args.len() - 1 - k <= stack.len(),
        forall|i: int|
            0 <= i < args.len() - 1 - k ==> (#[trigger] stack[i]).names(args[k + 1 + i]),
    ensures
        all_applicable(fetch_ops(stack, args, k, liveness, inst), stack),
        arranged(apply_all(fetch_ops(stack, args, k, liveness, inst), stack), args),
    decreases k + 1,
{
    if k >= 0 {
        let placed = args.len() - 1 - k;
        let j = fetch_position(stack, args, k, liveness, inst);
        let step = fetch_step(stack, args, k, liveness, inst);
        let next = apply_all(step, stack);
        lemma_first_named(stack, args[k], 0);
        lemma_first_named(stack, args[k], placed);
        if needs_copy(args, k, liveness, inst) {
            lemma_apply_one(Op::Dup(j as u8), stack);
        } else if j == 0 {
            assert(next == stack);
        } else if j == 1 {
            lemma_apply_one(Op::Swap(1), stack);
            assert(next =~= movup_at(stack, 1));
        } else {
            lemma_apply_one(Op::Movup(j as u8), stack);
        }
        assert(all_applicable(step, stack));
        assert(next.len() >= placed + 1);
        assert forall|i: int| 0 <= i < placed + 1 implies (#[trigger] next[i]).names(
            args[k + i],
        ) by {
            if i > 0 {
                assert(next[i] == stack[i - 1]);
            } else {
                assert(next[0] == stack[j]);
            }
        }
        lemma_fetch_arranges(next, args, k - 1, liveness, inst);
        lemma_apply_all_concat(step, fetch_ops(next, args, k - 1, liveness, inst), stack);
    }
}

/// Where the arguments can be put on top of the stack, the operations that
/// do so find the stack deep enough, and they leave the arguments on top of
/// it, the first topmost.
pub proof fn lemma_prepare_arranges(
    stack: Seq<Entry>,
    args: Seq<Value>,
    liveness: &LivenessAnalysis,
    inst: Inst,
)
    requires
        prepare_error(stack, args, liveness, inst) is None,
    ensures
        all_applicable(prepare_ops(stack, args, liveness, inst), stack),
        arranged(apply_all(prepare_ops(stack, args, liveness, inst), stack), args),
{
    if settled(stack, args, liveness, inst) {
    } else if window(stack, args, liveness, inst) is Some {
        let n = args.len();
        let empty = Seq::new(n, |p: int| n as usize);
        lemma_none_assigned(empty, n as int, 0);
        lemma_window_from(stack, args, 0, empty);
        let slots = window(stack, args, liveness, inst)->0;
        lemma_misplaced_bound(slots, 1);
        lemma_cycle_arranges(slots, 2 * n, stack, args);
    } else {
        lemma_fetch_arranges(stack, args, args.len() - 1, liveness, inst);
    }
}

/// Puts the values that `inst` hands to a destination on top of the stack,
/// the first of them topmost. A stack that holds them so already, none of
/// them live after `inst`, is left alone. Where the values are all among
/// the topmost entries, one entry each, and none is live after `inst`, they
/// are put in order by swaps with the top along the cycles of the
/// permutation that they are in. Otherwise they are fetched one by one, last
/// argument first: a value that is live after `inst`, or that an earlier
/// argument needs again, is copied; any other is moved. Fails if a value is
/// not on the stack, or lies deeper than a stack operation can reach.
pub fn prepare_stack_arguments(
    inst: Inst,
    args: &[Value],
    stack: &mut OperandStack,
    block: &mut masm::Block,
    liveness: &LivenessAnalysis,
) -> (result: Result<(), StackifyError>)
    ensures
        match prepare_error(old(stack)@, args@, liveness, inst) {
            Some(e) => result == Err::<(), StackifyError>(e),
            None => {
                let ops = prepare_ops(old(stack)@, args@, liveness, inst);
                &&& result is Ok
                &&& final(block)@ == old(block)@ + ops
                &&& all_applicable(ops, old(stack)@)
                &&& final(stack)@ == apply_all(ops, old(stack)@)
            },
        },
        result is Ok ==> arranged(final(stack)@, args@),
        balanced(final(block)@, old(block)@, final(stack)@, old(stack)@),
{
    if is_settled(inst, args, stack, liveness) {
        proof {
            lemma_grows_same(old(block)@);
            assert(block@ =~= old(block)@ + Seq::<Op>::empty());
            lemma_apply_all_concat(Seq::empty(), Seq::empty(), stack@);
        }
        return Ok(());
    }
    match window_slots(inst, args, stack, liveness) {
        Some(slots) => {
            sort_window(slots, args, stack, block);
            Ok(())
        },
        None => fetch_arguments(inst, args, stack, block, liveness),
    }
}

/// The first `k` elements of `values`.
fn slice_take(values: &[Value], k: usize) -> (head: &[Value])
    requires
        k <= values@.len(),
    ensures
        head@ == values@.take(k as int),
{
    vstd::slice::slice_subrange(values, 0, k)
}

} // verus!
