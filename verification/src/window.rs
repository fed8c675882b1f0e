//! Putting the topmost entries of the operand stack in a wanted order by
//! swaps with the top, along the cycles of the permutation that they are in.

use vstd::prelude::*;
use crate::analysis::LivenessAnalysis;
use crate::collections::{
    buffered, id_set_insert, id_set_new, op_buffer_get, op_buffer_len, op_buffer_new,
    op_buffer_push, OpBuffer,
};
use crate::hir::{Inst, ProgramPoint, Value};
use crate::masm::{self, Op, MAX_OPERAND_INDEX};
use crate::operand_stack::{
    all_applicable, apply_all, balanced, first_named, lemma_apply_all_concat, lemma_apply_one,
    lemma_first_named, lemma_wrote_manipulations, swap_at, Entry, OperandStack,
};

verus! {

/// Whether the top of the stack holds `args`, first argument on top.
pub open spec fn arranged(stack: Seq<Entry>, args: Seq<Value>) -> bool {
    args.len() <= stack.len() && forall|i: int|
        0 <= i < args.len() ==> (#[trigger] stack[i]).names(args[i])
}

/// `slots` with the entries at the top and at `q` exchanged.
pub open spec fn exchanged(slots: Seq<usize>, q: int) -> Seq<usize> {
    slots.update(0, slots[q]).update(q, slots[0])
}

/// The assignment of window positions to arguments with the positions of
/// the arguments `i` and after added: each argument takes the topmost
/// position whose entry goes by it. There is none if such a position lies
/// below the window or is taken.
pub open spec fn window_from(stack: Seq<Entry>, args: Seq<Value>, i: int, slots: Seq<usize>) -> Option<
    Seq<usize>,
>
    decreases args.len() - i,
{
    if i < 0 || i >= args.len() {
        Some(slots)
    } else {
        let p = first_named(stack, args[i], 0);
        if p >= args.len() || slots[p] != args.len() {
            None
        } else {
            window_from(stack, args, i + 1, slots.update(p, i as usize))
        }
    }
}

/// Whether one of `args` is live after `inst`.
pub open spec fn any_live(args: Seq<Value>, liveness: &LivenessAnalysis, inst: Inst) -> bool {
    exists|i: int|
        0 <= i < args.len() && liveness.live_after(#[trigger] args[i], ProgramPoint::Inst(inst))
}

/// For each position of the window, which is the top of the stack as deep
/// as there are arguments, the argument that the entry there stands for.
/// There is none unless there are two arguments at least, none of them
/// live after `inst`, each has a position of its own in the window, and the
/// window is within reach.
pub open spec fn window(
    stack: Seq<Entry>,
    args: Seq<Value>,
    liveness: &LivenessAnalysis,
    inst: Inst,
) -> Option<Seq<usize>> {
    if args.len() < 2 || args.len() > stack.len() || args.len() - 1 > MAX_OPERAND_INDEX
        || any_live(args, liveness, inst) {
        None
    } else {
        window_from(stack, args, 0, Seq::new(args.len(), |p: int| args.len() as usize))
    }
}

/// The smallest position at or after `from` that does not hold its own
/// number, or the length of `slots` if there is none.
pub open spec fn first_misplaced(slots: Seq<usize>, from: int) -> int
    decreases slots.len() - from,
{
    if from < 0 || from >= slots.len() {
        slots.len() as int
    } else if slots[from] != from {
        from
    } else {
        first_misplaced(slots, from + 1)
    }
}

/// The swaps with the top that put every position of `slots` in its place,
/// as far as `fuel` swaps go: what is on top goes where it belongs; when
/// the top is in place, the first position that is not comes to the top.
pub open spec fn cycle_ops(slots: Seq<usize>, fuel: nat) -> Seq<Op>
    decreases fuel,
{
    if fuel == 0 || slots.len() == 0 {
        Seq::empty()
    } else if slots[0] != 0 {
        seq![Op::Swap(slots[0] as u8)] + cycle_ops(
            exchanged(slots, slots[0] as int),
            (fuel - 1) as nat,
        )
    } else {
        let p = first_misplaced(slots, 1);
        if p >= slots.len() {
            Seq::empty()
        } else {
            seq![Op::Swap(p as u8)] + cycle_ops(exchanged(slots, p), (fuel - 1) as nat)
        }
    }
}

/// How many positions at or after `from` do not hold their own number.
pub open spec fn misplaced(slots: Seq<usize>, from: int) -> nat
    decreases slots.len() - from,
{
    if from < 0 || from >= slots.len() {
        0
    } else if slots[from] != from {
        1 + misplaced(slots, from + 1)
    } else {
        misplaced(slots, from + 1)
    }
}

/// Whether `slots` holds every number below its length once.
pub open spec fn permutes(slots: Seq<usize>) -> bool {
    &&& forall|p: int| 0 <= p < slots.len() ==> (#[trigger] slots[p]) < slots.len()
    &&& forall|p: int, q: int|
        0 <= p < q < slots.len() ==> #[trigger] slots[p] != #[trigger] slots[q]
}

/// A bound on the swaps that are left to make.
pub open spec fn disorder(slots: Seq<usize>) -> nat {
    2 * misplaced(slots, 1) + (if slots.len() > 0 && slots[0] == 0 {
        1nat
    } else {
        0nat
    })
}

/// What a change at one position does to the number of misplaced
/// positions.
pub proof fn lemma_misplaced_update(slots: Seq<usize>, pos: int, v: usize, from: int)
    requires
        0 <= from,
        0 <= pos < slots.len(),
    ensures
        pos < from ==> misplaced(slots.update(pos, v), from) == misplaced(slots, from),
        from <= pos ==> misplaced(slots.update(pos, v), from) + (if slots[pos] != pos {
            1int
        } else {
            0int
        }) == misplaced(slots, from) + (if v != pos {
            1int
        } else {
            0int
        }),
    decreases slots.len() - from,
{
    if from < slots.len() {
        lemma_misplaced_update(slots, pos, v, from + 1);
    }
}

/// The first misplaced position is misplaced, and none before it is.
pub proof fn lemma_first_misplaced(slots: Seq<usize>, from: int)
    requires
        0 <= from <= slots.len(),
    ensures
        from <= first_misplaced(slots, from) <= slots.len(),
        first_misplaced(slots, from) < slots.len() ==> slots[first_misplaced(slots, from)]
            != first_misplaced(slots, from) && misplaced(slots, from) > 0,
        forall|j: int| from <= j < first_misplaced(slots, from) ==> #[trigger] slots[j] == j,
        first_misplaced(slots, from) == slots.len() ==> misplaced(slots, from) == 0,
    decreases slots.len() - from,
{
    if from < slots.len() && slots[from] == from {
        lemma_first_misplaced(slots, from + 1);
    }
}

/// A swap of the sort leaves a permutation a permutation, keeps it as far
/// from order as the bound says, and brings it closer.
pub proof fn lemma_cycle_step(slots: Seq<usize>, q: int)
    requires
        permutes(slots),
        0 < q < slots.len(),
        (slots[0] != 0 && q == slots[0]) || (slots[0] == 0 && slots[q] != q),
    ensures
        permutes(exchanged(slots, q)),
        disorder(exchanged(slots, q)) < disorder(slots),
{
    let once = slots.update(0, slots[q]);
    let after = exchanged(slots, q);
    lemma_misplaced_update(slots, 0, slots[q], 1);
    lemma_misplaced_update(once, q, slots[0], 1);
    assert(slots[q] != q) by {
        if slots[0] != 0 {
            assert(slots[0] != slots[q]);
        }
    }
    assert(permutes(after)) by {
        assert forall|a: int, b: int| 0 <= a < b < after.len() implies #[trigger] after[a]
            != #[trigger] after[b] by {
            let x = if a == 0 {
                q
            } else if a == q {
                0
            } else {
                a
            };
            let y = if b == 0 {
                q
            } else if b == q {
                0
            } else {
                b
            };
            assert(after[a] == slots[x]);
            assert(after[b] == slots[y]);
            if x < y {
                assert(slots[x] != slots[y]);
            } else {
                assert(slots[y] != slots[x]);
            }
        }
    }
}

/// A permutation whose positions from the second on are in place is in
/// place altogether.
pub proof fn lemma_sorted(slots: Seq<usize>)
    requires
        permutes(slots),
        slots.len() > 0,
        first_misplaced(slots, 1) >= slots.len(),
    ensures
        forall|p: int| 0 <= p < slots.len() ==> #[trigger] slots[p] == p,
{
    lemma_first_misplaced(slots, 1);
    if slots[0] != 0 {
        let q = slots[0] as int;
        assert(slots[q] == q);
        assert(slots[0] != slots[q]);
    }
}

/// An assignment of window positions in which every argument has its
/// position is a permutation.
pub proof fn lemma_window_complete(slots: Seq<usize>, n: int)
    requires
        slots.len() == n,
        forall|p: int| 0 <= p < slots.len() ==> (#[trigger] slots[p]) < n || slots[p] == n,
        forall|p: int, q: int|
            0 <= p < q < slots.len() && slots[p] != n ==> #[trigger] slots[p] != #[trigger] slots[q],
        assigned(slots, n, 0) == n,
    ensures
        permutes(slots),
{
    lemma_all_assigned(slots, n, 0);
}

/// How many positions at or after `from` are assigned, that is, do not
/// hold the number `n`.
pub open spec fn assigned(slots: Seq<usize>, n: int, from: int) -> nat
    decreases slots.len() - from,
{
    if from < 0 || from >= slots.len() {
        0
    } else if slots[from] != n {
        1 + assigned(slots, n, from + 1)
    } else {
        assigned(slots, n, from + 1)
    }
}

/// Assigning a position that was not assigned makes one more.
pub proof fn lemma_assigned_update(slots: Seq<usize>, n: int, pos: int, v: usize, from: int)
    requires
        0 <= from,
        0 <= pos < slots.len(),
        slots[pos] == n,
        v != n,
    ensures
        pos < from ==> assigned(slots.update(pos, v), n, from) == assigned(slots, n, from),
        from <= pos ==> assigned(slots.update(pos, v), n, from) == assigned(slots, n, from) + 1,
    decreases slots.len() - from,
{
    if from < slots.len() {
        lemma_assigned_update(slots, n, pos, v, from + 1);
    }
}

/// Where as many positions are assigned as there are, every position is.
pub proof fn lemma_all_assigned(slots: Seq<usize>, n: int, from: int)
    requires
        0 <= from <= slots.len(),
        assigned(slots, n, from) >= slots.len() - from,
    ensures
        forall|p: int| from <= p < slots.len() ==> #[trigger] slots[p] != n,
    decreases slots.len() - from,
{
    if from < slots.len() {
        lemma_assigned_bound(slots, n, from + 1);
        lemma_all_assigned(slots, n, from + 1);
    }
}

/// No more positions are assigned than there are.
pub proof fn lemma_assigned_bound(slots: Seq<usize>, n: int, from: int)
    requires
        0 <= from <= slots.len(),
    ensures
        assigned(slots, n, from) <= slots.len() - from,
    decreases slots.len() - from,
{
    if from < slots.len() {
        lemma_assigned_bound(slots, n, from + 1);
    }
}

/// For each position of the window the argument that the entry there
/// stands for, if the arguments can be put in order within the window.
pub(crate) fn window_slots(
    inst: Inst,
    args: &[Value],
    stack: &OperandStack,
    liveness: &LivenessAnalysis,
) -> (result: Option<Vec<usize>>)
    ensures
        match window(stack@, args@, liveness, inst) {
            Some(slots) => result is Some && result->0@ == slots,
            None => result is None,
        },
        result matches Some(slots) ==> {
            &&& slots@.len() == args@.len()
            &&& 2 <= args@.len() <= stack@.len()
            &&& args@.len() - 1 <= MAX_OPERAND_INDEX
            &&& permutes(slots@)
            &&& forall|p: int|
                0 <= p < args@.len() ==> (#[trigger] stack@[p]).names(args@[slots@[p] as int])
        },
{
    let n = args.len();
    if n < 2 || n > stack.len() || n - 1 > MAX_OPERAND_INDEX {
        return None;
    }
    let mut i: usize = 0;
    while i < n
        invariant
            i <= n,
            n == args@.len(),
            forall|j: int|
                0 <= j < i ==> !liveness.live_after(#[trigger] args@[j], ProgramPoint::Inst(inst)),
        decreases n - i,
    {
        if liveness.is_live_after(args[i], ProgramPoint::Inst(inst)) {
            return None;
        }
        i = i + 1;
    }
    let mut slots: Vec<usize> = Vec::new();
    let mut p: usize = 0;
    while p < n
        invariant
            p <= n,
            slots@ == Seq::new(p as nat, |q: int| n),
        decreases n - p,
    {
        slots.push(n);
        p = p + 1;
        assert(slots@ =~= Seq::new(p as nat, |q: int| n));
    }
    let ghost empty = slots@;
    proof {
        lemma_none_assigned(empty, n as int, 0);
        assert(empty =~= Seq::new(args@.len(), |p: int| args@.len() as usize));
        assert(!any_live(args@, liveness, inst));
    }
    let mut taken = id_set_new();
    let mut i: usize = 0;
    while i < n
        invariant
            i <= n,
            n == args@.len(),
            n <= stack@.len(),
            slots@.len() == n,
            n - 1 <= MAX_OPERAND_INDEX,
            forall|p: u32| taken@.contains(p) <==> p < n && slots@[p as int] != n,
            window(stack@, args@, liveness, inst) == window_from(stack@, args@, 0, empty),
            window_from(stack@, args@, i as int, slots@) == window_from(stack@, args@, 0, empty),
        decreases n - i,
    {
        let at = match stack.find(args[i]) {
            Some(at) => at,
            None => {
                return None;
            },
        };
        if at >= n {
            return None;
        }
        if !id_set_insert(&mut taken, at as u32) {
            return None;
        }
        slots[at] = i;
        i = i + 1;
    }
    proof {
        lemma_window_from(stack@, args@, 0, empty);
    }
    Some(slots)
}

/// Where every position holds the number `n`, none is assigned.
pub proof fn lemma_none_assigned(slots: Seq<usize>, n: int, from: int)
    requires
        0 <= from <= slots.len(),
        forall|p: int| 0 <= p < slots.len() ==> #[trigger] slots[p] == n,
    ensures
        assigned(slots, n, from) == 0,
    decreases slots.len() - from,
{
    if from < slots.len() {
        lemma_none_assigned(slots, n, from + 1);
    }
}

/// Makes the swaps that `ops` holds, in their order, on the stack and
/// writes them to the block.
fn make_swaps(ops: &OpBuffer, stack: &mut OperandStack, block: &mut masm::Block)
    requires
        all_applicable(buffered(*ops), old(stack)@),
        forall|k: int| 0 <= k < buffered(*ops).len() ==> #[trigger] buffered(*ops)[k] is Swap,
    ensures
        final(block)@ == old(block)@ + buffered(*ops),
        final(stack)@ == apply_all(buffered(*ops), old(stack)@),
{
    let len = op_buffer_len(ops);
    let ghost all = buffered(*ops);
    let ghost start = stack@;
    let mut i: usize = 0;
    assert(block@ =~= old(block)@ + all.take(0));
    while i < len
        invariant
            i <= len,
            len == all.len(),
            all == buffered(*ops),
            start == old(stack)@,
            all_applicable(all, start),
            forall|k: int| 0 <= k < all.len() ==> #[trigger] all[k] is Swap,
            block@ == old(block)@ + all.take(i as int),
            stack@ == apply_all(all.take(i as int), start),
        decreases len - i,
    {
        let op = op_buffer_get(ops, i);
        let ghost before = stack@;
        proof {
            assert(all[i as int] is Swap);
            assert(all.take(i + 1) =~= all.take(i as int) + seq![op]);
            assert(all =~= all.take(i + 1) + all.skip(i + 1));
            lemma_apply_all_concat(all.take(i + 1), all.skip(i + 1), start);
            lemma_apply_all_concat(all.take(i as int), seq![op], start);
            lemma_apply_one(op, before);
        }
        match op {
            Op::Swap(q) => {
                stack.swap(q as usize);
                block.push(op);
            },
            _ => {},
        }
        assert(block@ =~= old(block)@ + all.take(i + 1));
        i = i + 1;
    }
    assert(all.take(len as int) =~= all);
}

/// Puts the entries of the window in the order of the arguments that they
/// stand for, by swaps with the top: the swaps are worked out on the
/// assignment of positions first, and then made.
pub(crate) fn sort_window(slots: Vec<usize>, args: &[Value], stack: &mut OperandStack, block: &mut masm::Block)
    requires
        slots@.len() == args@.len(),
        2 <= args@.len() <= old(stack)@.len(),
        args@.len() - 1 <= MAX_OPERAND_INDEX,
        permutes(slots@),
        forall|p: int|
            0 <= p < args@.len() ==> (#[trigger] old(stack)@[p]).names(args@[slots@[p] as int]),
    ensures
        final(block)@ == old(block)@ + cycle_ops(slots@, 2 * args@.len()),
        all_applicable(cycle_ops(slots@, 2 * args@.len()), old(stack)@),
        final(stack)@ == apply_all(cycle_ops(slots@, 2 * args@.len()), old(stack)@),
        arranged(final(stack)@, args@),
        balanced(final(block)@, old(block)@, final(stack)@, old(stack)@),
{
    let n = args.len();
    let ghost start = stack@;
    let ghost begun = slots@;
    let mut ops = op_buffer_new();
    let mut slots = slots;
    let mut fuel: usize = 2 * n;
    proof {
        assert(buffered(ops) + cycle_ops(begun, fuel as nat) =~= cycle_ops(begun, fuel as nat));
    }
    let mut sorted = false;
    while fuel > 0 && !sorted
        invariant
            n == args@.len(),
            slots@.len() == n,
            2 <= n,
            n - 1 <= MAX_OPERAND_INDEX,
            permutes(slots@),
            sorted ==> cycle_ops(slots@, fuel as nat) == Seq::<Op>::empty(),
            forall|k: int| 0 <= k < buffered(ops).len() ==> #[trigger] buffered(ops)[k] is Swap,
            buffered(ops) + cycle_ops(slots@, fuel as nat) == cycle_ops(begun, (2 * n) as nat),
        decreases fuel, !sorted as int,
    {
        let ghost was = slots@;
        let ghost done = buffered(ops);
        let top = slots[0];
        let q: usize = if top != 0 {
            top
        } else {
            let mut p: usize = 1;
            while p < n && slots[p] == p
                invariant
                    1 <= p <= n,
                    slots@.len() == n,
                    first_misplaced(slots@, 1) == first_misplaced(slots@, p as int),
                decreases n - p,
            {
                p = p + 1;
            }
            p
        };
        proof {
            lemma_first_misplaced(was, 1);
        }
        if q >= n {
            sorted = true;
        } else {
            proof {
                lemma_cycle_step(was, q as int);
            }
            let other = slots[q];
            slots[0] = other;
            slots[q] = top;
            op_buffer_push(&mut ops, Op::Swap(q as u8));
            fuel = fuel - 1;
            proof {
                assert(slots@ =~= exchanged(was, q as int));
                let step = seq![Op::Swap(q as u8)];
                assert(buffered(ops) =~= done + step);
                assert((done + step) + cycle_ops(slots@, fuel as nat) =~= done + cycle_ops(
                    was,
                    (fuel + 1) as nat,
                ));
            }
        }
    }
    proof {
        assert(buffered(ops) + Seq::<Op>::empty() =~= buffered(ops));
        lemma_misplaced_bound(begun, 1);
        lemma_cycle_arranges(begun, (2 * n) as nat, start, args@);
        lemma_wrote_manipulations(old(block)@, buffered(ops), start);
    }
    make_swaps(&ops, stack, block);
}

/// An assignment of window positions that `window_from` completes is a
/// permutation under which each entry of the window goes by its argument.
pub proof fn lemma_window_from(stack: Seq<Entry>, args: Seq<Value>, i: int, slots: Seq<usize>)
    requires
        0 <= i <= args.len(),
        args.len() <= stack.len(),
        args.len() <= usize::MAX,
        slots.len() == args.len(),
        forall|p: int|
            0 <= p < slots.len() ==> (#[trigger] slots[p]) < i || slots[p] == args.len(),
        forall|p: int, q: int|
            0 <= p < q < slots.len() && slots[p] != args.len() ==> #[trigger] slots[p]
                != #[trigger] slots[q],
        forall|p: int|
            0 <= p < slots.len() && slots[p] != args.len() ==> (#[trigger] stack[p]).names(
                args[slots[p] as int],
            ),
        assigned(slots, args.len() as int, 0) == i,
        window_from(stack, args, i, slots) is Some,
    ensures
        window_from(stack, args, i, slots)->0.len() == args.len(),
        permutes(window_from(stack, args, i, slots)->0),
        forall|p: int|
            0 <= p < args.len() ==> (#[trigger] stack[p]).names(
                args[window_from(stack, args, i, slots)->0[p] as int],
            ),
    decreases args.len() - i,
{
    let n = args.len() as int;
    if i >= n {
        lemma_window_complete(slots, n);
        lemma_all_assigned(slots, n, 0);
    } else {
        let at = first_named(stack, args[i], 0);
        lemma_first_named(stack, args[i], 0);
        lemma_assigned_update(slots, n, at, i as usize, 0);
        lemma_window_from(stack, args, i + 1, slots.update(at, i as usize));
    }
}

/// The swaps of the sort find the stack deep enough, and they leave the
/// arguments on top of it, the first topmost.
pub proof fn lemma_cycle_arranges(slots: Seq<usize>, fuel: nat, stack: Seq<Entry>, args: Seq<Value>)
    requires
        slots.len() == args.len(),
        0 < args.len() <= stack.len(),
        args.len() - 1 <= MAX_OPERAND_INDEX,
        permutes(slots),
        fuel >= disorder(slots),
        forall|p: int| 0 <= p < args.len() ==> (#[trigger] stack[p]).names(args[slots[p] as int]),
    ensures
        all_applicable(cycle_ops(slots, fuel), stack),
        arranged(apply_all(cycle_ops(slots, fuel), stack), args),
    decreases fuel,
{
    let n = slots.len() as int;
    lemma_first_misplaced(slots, 1);
    let q = if slots[0] != 0 {
        slots[0] as int
    } else {
        first_misplaced(slots, 1)
    };
    if fuel == 0 || q >= n {
        if fuel == 0 {
            lemma_misplaced_zero(slots);
        }
        lemma_sorted(slots);
        assert(cycle_ops(slots, fuel) =~= Seq::<Op>::empty());
    } else {
        lemma_cycle_step(slots, q);
        let op = Op::Swap(q as u8);
        let next = swap_at(stack, q);
        let after = exchanged(slots, q);
        lemma_apply_one(op, stack);
        assert forall|p: int| 0 <= p < args.len() implies (#[trigger] next[p]).names(
            args[after[p] as int],
        ) by {
            if p == 0 {
                assert(next[0] == stack[q]);
            } else if p == q {
                assert(next[p] == stack[0]);
            } else {
                assert(next[p] == stack[p]);
            }
        }
        lemma_cycle_arranges(after, (fuel - 1) as nat, next, args);
        lemma_apply_all_concat(seq![op], cycle_ops(after, (fuel - 1) as nat), stack);
    }
}

/// No more positions are misplaced than there are.
pub proof fn lemma_misplaced_bound(slots: Seq<usize>, from: int)
    requires
        0 <= from <= slots.len(),
    ensures
        misplaced(slots, from) <= slots.len() - from,
    decreases slots.len() - from,
{
    if from < slots.len() {
        lemma_misplaced_bound(slots, from + 1);
    }
}

/// A permutation that is no swap away from order has every position from
/// the second on in place.
pub proof fn lemma_misplaced_zero(slots: Seq<usize>)
    requires
        permutes(slots),
        slots.len() > 0,
        disorder(slots) == 0,
    ensures
        first_misplaced(slots, 1) >= slots.len(),
{
    lemma_first_misplaced(slots, 1);
}

} // verus!
