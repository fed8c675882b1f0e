//! The model of the operand stack that the emitter keeps while it writes
//! operations: which value or constant each position holds.

use vstd::prelude::*;
use crate::hir::{Immediate, Value};
use crate::masm::{
    begins_with, grows, lemma_grows_more, lemma_grows_trans, lemma_net_effect_concat,
    lemma_net_effect_push, net_effect, straight, written, Op,
};

verus! {

/// What a position of the operand stack holds.
#[derive(Clone, Copy, Debug, PartialEq, Eq, Hash)]
pub enum Operand {
    /// A constant.
    Const(Immediate),
    /// An SSA value.
    Value(Value),
}

impl Operand {
    /// Whether the two operands are the same.
    pub fn is(&self, other: &Operand) -> (same: bool)
        ensures
            same == (*self == *other),
    {
        match (self, other) {
            (Operand::Const(a), Operand::Const(b)) => a.is(b),
            (Operand::Value(a), Operand::Value(b)) => *a == *b,
            _ => false,
        }
    }
}

/// One position of the operand stack: the operand, and the name that the
/// operand went by before it was last renamed.
#[derive(Clone, Copy, Debug, PartialEq, Eq, Hash)]
pub struct Entry {
    pub operand: Operand,
    pub alias: Option<Value>,
}

impl Entry {
    /// An entry without an earlier name.
    pub open spec fn plain(operand: Operand) -> Entry {
        Entry { operand, alias: None }
    }

    /// Whether `value` is the name, or the earlier name, of the entry.
    pub open spec fn names(self, value: Value) -> bool {
        self.operand == Operand::Value(value) || self.alias == Some(value)
    }

    /// Whether `value` is the name, or the earlier name, of the entry.
    pub fn is_named(&self, value: Value) -> (result: bool)
        ensures
            result == self.names(value),
    {
        let by_name = match self.operand {
            Operand::Value(v) => v == value,
            Operand::Const(_) => false,
        };
        let by_alias = match self.alias {
            Some(v) => v == value,
            None => false,
        };
        by_name || by_alias
    }

    /// What the entry becomes when it is given the name `value`: the name it
    /// had, if it was another value, stays as its earlier name.
    pub open spec fn renamed(self, value: Value) -> Entry {
        match self.operand {
            Operand::Value(prev) => if prev == value {
                self
            } else {
                Entry { operand: Operand::Value(value), alias: Some(prev) }
            },
            Operand::Const(_) => Entry { operand: Operand::Value(value), alias: None },
        }
    }
}

/// The smallest position at or after `from` whose entry goes by `value`, or
/// the length of `stack` if there is none.
pub open spec fn first_named(stack: Seq<Entry>, value: Value, from: int) -> int
    decreases stack.len() - from,
{
    if from < 0 || from >= stack.len() {
        stack.len() as int
    } else if stack[from].names(value) {
        from
    } else {
        first_named(stack, value, from + 1)
    }
}

/// The position that `first_named` gives lies at or after `from`, and the
/// entry there, if there is one, goes by `value`.
pub proof fn lemma_first_named(stack: Seq<Entry>, value: Value, from: int)
    requires
        0 <= from,
    ensures
        first_named(stack, value, from) >= from || first_named(stack, value, from) == stack.len(),
        first_named(stack, value, from) <= stack.len(),
        first_named(stack, value, from) < stack.len() ==> stack[first_named(stack, value, from)].names(
            value,
        ),
    decreases stack.len() - from,
{
    if from < stack.len() && !stack[from].names(value) {
        lemma_first_named(stack, value, from + 1);
    }
}

/// The smallest position whose entry goes by `value`, if there is one.
pub open spec fn position_of(stack: Seq<Entry>, value: Value) -> Option<int> {
    if first_named(stack, value, 0) < stack.len() {
        Some(first_named(stack, value, 0))
    } else {
        None
    }
}

/// The stack with a copy of the entry at `i` pushed.
pub open spec fn dup_at(stack: Seq<Entry>, i: int) -> Seq<Entry> {
    stack.insert(0, stack[i])
}

/// The stack with the top entry and the one at `i` exchanged.
pub open spec fn swap_at(stack: Seq<Entry>, i: int) -> Seq<Entry> {
    stack.update(0, stack[i]).update(i, stack[0])
}

/// The stack with the entry at `i` taken out and pushed.
pub open spec fn movup_at(stack: Seq<Entry>, i: int) -> Seq<Entry> {
    stack.remove(i).insert(0, stack[i])
}

/// The stack with the top entry taken off and put at `i`.
pub open spec fn movdn_at(stack: Seq<Entry>, i: int) -> Seq<Entry> {
    stack.remove(0).insert(i, stack[0])
}

/// Whether the stack is deep enough for the manipulation `op`.
pub open spec fn applicable(op: Op, stack: Seq<Entry>) -> bool {
    match op {
        Op::Drop => stack.len() >= 1,
        Op::Dropw => stack.len() >= 4,
        Op::Dup(i) => i < stack.len(),
        Op::Swap(i) => i < stack.len(),
        Op::Movup(i) => i < stack.len(),
        Op::Movdn(i) => i < stack.len(),
        _ => false,
    }
}

/// What the manipulation `op` makes of the stack.
pub open spec fn apply(op: Op, stack: Seq<Entry>) -> Seq<Entry> {
    match op {
        Op::Drop => stack.skip(1),
        Op::Dropw => stack.skip(4),
        Op::Dup(i) => dup_at(stack, i as int),
        Op::Swap(i) => swap_at(stack, i as int),
        Op::Movup(i) => movup_at(stack, i as int),
        Op::Movdn(i) => movdn_at(stack, i as int),
        _ => stack,
    }
}

/// Whether each of the manipulations `ops` finds the stack deep enough when
/// they run in order.
pub open spec fn all_applicable(ops: Seq<Op>, stack: Seq<Entry>) -> bool
    decreases ops.len(),
{
    ops.len() == 0 || (applicable(ops[0], stack) && all_applicable(
        ops.skip(1),
        apply(ops[0], stack),
    ))
}

/// What the manipulations `ops`, run in order, make of the stack.
pub open spec fn apply_all(ops: Seq<Op>, stack: Seq<Entry>) -> Seq<Entry>
    decreases ops.len(),
{
    if ops.len() == 0 {
        stack
    } else {
        apply_all(ops.skip(1), apply(ops[0], stack))
    }
}

/// Running one manipulation.
pub proof fn lemma_apply_one(op: Op, stack: Seq<Entry>)
    ensures
        apply_all(seq![op], stack) == apply(op, stack),
        all_applicable(seq![op], stack) == applicable(op, stack),
{
    let ops = seq![op];
    assert(ops.skip(1).len() == 0);
    assert(apply_all(ops.skip(1), apply(op, stack)) == apply(op, stack));
    assert(all_applicable(ops.skip(1), apply(op, stack)));
}

/// Running two runs of manipulations one after the other.
pub proof fn lemma_apply_all_concat(a: Seq<Op>, b: Seq<Op>, stack: Seq<Entry>)
    ensures
        apply_all(a + b, stack) == apply_all(b, apply_all(a, stack)),
        all_applicable(a + b, stack) == (all_applicable(a, stack) && all_applicable(
            b,
            apply_all(a, stack),
        )),
    decreases a.len(),
{
    if a.len() == 0 {
        assert(a + b =~= b);
    } else {
        assert((a + b).skip(1) =~= a.skip(1) + b);
        assert((a + b)[0] == a[0]);
        lemma_apply_all_concat(a.skip(1), b, apply(a[0], stack));
    }
}

/// Running two manipulations.
pub proof fn lemma_apply_two(first: Op, second: Op, stack: Seq<Entry>)
    ensures
        apply_all(seq![first, second], stack) == apply(second, apply(first, stack)),
        all_applicable(seq![first, second], stack) == (applicable(first, stack) && applicable(
            second,
            apply(first, stack),
        )),
{
    assert(seq![first, second] =~= seq![first] + seq![second]);
    lemma_apply_all_concat(seq![first], seq![second], stack);
    lemma_apply_one(first, stack);
    lemma_apply_one(second, apply(first, stack));
}

/// A manipulation that finds the stack deep enough changes its depth by the
/// effect of the operation.
pub proof fn lemma_apply_depth(op: Op, stack: Seq<Entry>)
    requires
        applicable(op, stack),
    ensures
        apply(op, stack).len() == stack.len() + op.stack_effect(),
{
}

/// Manipulations that find the stack deep enough change its depth by their
/// net effect.
pub proof fn lemma_apply_all_depth(ops: Seq<Op>, stack: Seq<Entry>)
    requires
        all_applicable(ops, stack),
    ensures
        apply_all(ops, stack).len() == stack.len() + net_effect(ops),
    decreases ops.len(),
{
    if ops.len() > 0 {
        lemma_apply_depth(ops[0], stack);
        lemma_apply_all_depth(ops.skip(1), apply(ops[0], stack));
        assert(ops =~= seq![ops[0]] + ops.skip(1));
        lemma_net_effect_concat(seq![ops[0]], ops.skip(1));
        lemma_net_effect_push(Seq::empty(), ops[0]);
        assert(Seq::<Op>::empty().push(ops[0]) =~= seq![ops[0]]);
    }
}

/// Manipulations that find the stack deep enough stay in their block.
pub proof fn lemma_manipulations_straight(ops: Seq<Op>, stack: Seq<Entry>)
    requires
        all_applicable(ops, stack),
    ensures
        straight(ops),
    decreases ops.len(),
{
    if ops.len() > 0 {
        lemma_manipulations_straight(ops.skip(1), apply(ops[0], stack));
        assert forall|i: int| 0 <= i < ops.len() implies !((#[trigger] ops[i]) is If) && !(
        ops[i] is While) by {
            if i > 0 {
                assert(ops[i] == ops.skip(1)[i - 1]);
            }
        }
    }
}

/// Whether what a block got, between `before` and `after`, accounts for the
/// change of the stack from `was` to `is`: the net effect of the operations
/// that were written is the change in depth.
pub open spec fn accounts(after: Seq<Op>, before: Seq<Op>, is: Seq<Entry>, was: Seq<Entry>) -> bool {
    begins_with(after, before) && net_effect(written(after, before)) == is.len() - was.len()
}

/// Whether what a block got, between `before` and `after`, accounts for the
/// change of the stack from `was` to `is`, and stays in the block.
pub open spec fn balanced(after: Seq<Op>, before: Seq<Op>, is: Seq<Entry>, was: Seq<Entry>) -> bool {
    grows(after, before) && accounts(after, before, is, was)
}

/// What accounts for two changes of the stack, one after the other, accounts
/// for both together.
pub proof fn lemma_balanced_trans(
    last: Seq<Op>,
    mid: Seq<Op>,
    first: Seq<Op>,
    is: Seq<Entry>,
    between: Seq<Entry>,
    was: Seq<Entry>,
)
    requires
        balanced(mid, first, between, was),
        balanced(last, mid, is, between),
    ensures
        balanced(last, first, is, was),
{
    lemma_grows_trans(last, mid, first);
}

/// A block that got straight operations accounts for a change of the stack
/// by their net effect.
pub proof fn lemma_wrote(before: Seq<Op>, ops: Seq<Op>, is: Seq<Entry>, was: Seq<Entry>)
    requires
        straight(ops),
        net_effect(ops) == is.len() - was.len(),
    ensures
        balanced(before + ops, before, is, was),
{
    lemma_grows_more(before, ops);
}

/// A block that got manipulations that found the stack deep enough accounts
/// for what they made of the stack.
pub proof fn lemma_wrote_manipulations(before: Seq<Op>, ops: Seq<Op>, was: Seq<Entry>)
    requires
        all_applicable(ops, was),
    ensures
        balanced(before + ops, before, apply_all(ops, was), was),
{
    lemma_manipulations_straight(ops, was);
    lemma_grows_more(before, ops);
    lemma_apply_all_depth(ops, was);
}

/// The operands of the entries, without their earlier names.
pub open spec fn operands_of(stack: Seq<Entry>) -> Seq<Operand> {
    Seq::new(stack.len(), |i: int| stack[i].operand)
}

/// The emitter's model of the operand stack. Position 0 is the top.
#[derive(Debug, PartialEq, Eq)]
pub struct OperandStack {
    stack: Vec<Entry>,
}

impl View for OperandStack {
    type V = Seq<Entry>;

    closed spec fn view(&self) -> Seq<Entry> {
        self.stack@
    }
}

impl Clone for OperandStack {
    fn clone(&self) -> (copy: Self)
        ensures
            copy@ == self@,
    {
        let mut stack: Vec<Entry> = Vec::new();
        let mut i: usize = 0;
        while i < self.stack.len()
            invariant
                i <= self.stack@.len(),
                stack@ == self.stack@.take(i as int),
            decreases self.stack@.len() - i,
        {
            stack.push(self.stack[i]);
            i = i + 1;
            assert(stack@ =~= self.stack@.take(i as int));
        }
        assert(self.stack@.take(i as int) =~= self.stack@);
        OperandStack { stack }
    }
}

impl OperandStack {
    /// The empty stack.
    pub fn new() -> (stack: OperandStack)
        ensures
            stack@ == Seq::<Entry>::empty(),
    {
        OperandStack { stack: Vec::new() }
    }

    /// The number of operands.
    pub fn len(&self) -> (n: usize)
        ensures
            n == self@.len(),
    {
        self.stack.len()
    }

    /// Whether there is no operand.
    pub fn is_empty(&self) -> (result: bool)
        ensures
            result == (self@.len() == 0),
    {
        self.stack.len() == 0
    }

    /// Puts `operand` on top.
    pub fn push(&mut self, operand: Operand)
        ensures
            final(self)@ == old(self)@.insert(0, Entry::plain(operand)),
    {
        self.stack.insert(0, Entry { operand, alias: None });
    }

    /// Puts `count` entries of `operand` on top.
    pub fn push_n(&mut self, operand: Operand, count: usize)
        ensures
            final(self)@ == Seq::new(count as nat, |i: int| Entry::plain(operand)) + old(self)@,
    {
        let mut i: usize = 0;
        assert(self@ =~= Seq::new(0, |i: int| Entry::plain(operand)) + old(self)@);
        while i < count
            invariant
                i <= count,
                self@ == Seq::new(i as nat, |j: int| Entry::plain(operand)) + old(self)@,
            decreases count - i,
        {
            self.stack.insert(0, Entry { operand, alias: None });
            i = i + 1;
            assert(self@ =~= Seq::new(i as nat, |j: int| Entry::plain(operand)) + old(self)@);
        }
    }

    /// Takes the top operand off, if there is one.
    pub fn pop(&mut self) -> (top: Option<Operand>)
        ensures
            old(self)@.len() == 0 ==> top is None && final(self)@ == old(self)@,
            old(self)@.len() > 0 ==> top == Some(old(self)@[0].operand) && final(self)@ == old(
                self,
            )@.skip(1),
    {
        if self.stack.len() == 0 {
            None
        } else {
            let entry = self.stack.remove(0);
            assert(self.stack@ =~= old(self).stack@.skip(1));
            Some(entry.operand)
        }
    }

    /// The top operand, if there is one.
    pub fn peek(&self) -> (top: Option<Operand>)
        ensures
            top == (if self@.len() == 0 {
                None
            } else {
                Some(self@[0].operand)
            }),
    {
        if self.stack.len() == 0 {
            None
        } else {
            Some(self.stack[0].operand)
        }
    }

    /// The entry at position `i`.
    pub fn get(&self, i: usize) -> (entry: Entry)
        requires
            i < self@.len(),
        ensures
            entry == self@[i as int],
    {
        self.stack[i]
    }

    /// The operands, top first, without their earlier names.
    pub fn operands(&self) -> (operands: Vec<Operand>)
        ensures
            operands@ == operands_of(self@),
    {
        let mut operands: Vec<Operand> = Vec::new();
        let mut i: usize = 0;
        while i < self.stack.len()
            invariant
                i <= self.stack@.len(),
                operands@ == operands_of(self.stack@.take(i as int)),
            decreases self.stack@.len() - i,
        {
            operands.push(self.stack[i].operand);
            i = i + 1;
            assert(operands@ =~= operands_of(self.stack@.take(i as int)));
        }
        assert(self.stack@.take(i as int) =~= self.stack@);
        operands
    }

    /// The smallest position at or after `from` whose entry goes by `value`,
    /// if there is one.
    pub fn find_from(&self, value: Value, from: usize) -> (found: Option<usize>)
        ensures
            match found {
                Some(i) => from <= i < self@.len() && first_named(self@, value, from as int) == i,
                None => first_named(self@, value, from as int) >= self@.len(),
            },
            found matches Some(i) ==> self@[i as int].names(value) && forall|j: int|
                from <= j < i ==> !self@[j].names(value),
            found is None ==> forall|j: int| from <= j < self@.len() ==> !self@[j].names(value),
    {
        let mut i: usize = from;
        if from > self.stack.len() {
            return None;
        }
        while i < self.stack.len()
            invariant
                from <= i <= self.stack@.len(),
                first_named(self.stack@, value, from as int) == first_named(
                    self.stack@,
                    value,
                    i as int,
                ),
                forall|j: int| from <= j < i ==> !self.stack@[j].names(value),
            decreases self.stack@.len() - i,
        {
            if self.stack[i].is_named(value) {
                return Some(i);
            }
            i = i + 1;
        }
        None
    }

    /// The smallest position whose entry goes by `value`, if there is one.
    pub fn find(&self, value: Value) -> (found: Option<usize>)
        ensures
            match found {
                Some(i) => position_of(self@, value) == Some(i as int),
                None => position_of(self@, value) is None,
            },
            found matches Some(i) ==> i < self@.len() && self@[i as int].names(value) && forall|
                j: int,
            | 0 <= j < i ==> !self@[j].names(value),
            found is None ==> forall|j: int| 0 <= j < self@.len() ==> !self@[j].names(value),
    {
        self.find_from(value, 0)
    }

    /// Pushes a copy of the entry at position `i`.
    pub fn dup(&mut self, i: usize)
        requires
            i < old(self)@.len(),
        ensures
            final(self)@ == dup_at(old(self)@, i as int),
    {
        let entry = self.stack[i];
        self.stack.insert(0, entry);
    }

    /// Exchanges the top entry with the one at position `i`.
    pub fn swap(&mut self, i: usize)
        requires
            i < old(self)@.len(),
        ensures
            final(self)@ == swap_at(old(self)@, i as int),
    {
        let top = self.stack[0];
        let other = self.stack[i];
        self.stack[0] = other;
        self.stack[i] = top;
    }

    /// Takes the entry at position `i` out and pushes it.
    pub fn movup(&mut self, i: usize)
        requires
            i < old(self)@.len(),
        ensures
            final(self)@ == movup_at(old(self)@, i as int),
    {
        let entry = self.stack.remove(i);
        self.stack.insert(0, entry);
    }

    /// Takes the top entry off and puts it at position `i`.
    pub fn movdn(&mut self, i: usize)
        requires
            i < old(self)@.len(),
        ensures
            final(self)@ == movdn_at(old(self)@, i as int),
    {
        let entry = self.stack.remove(0);
        self.stack.insert(i, entry);
    }

    /// Gives the entry at position `i` the name `value`; the name it had stays
    /// as its earlier name.
    pub fn rename(&mut self, i: usize, value: Value)
        requires
            i < old(self)@.len(),
        ensures
            final(self)@ == old(self)@.update(i as int, old(self)@[i as int].renamed(value)),
    {
        let entry = self.stack[i];
        let renamed = match entry.operand {
            Operand::Value(prev) => {
                if prev == value {
                    entry
                } else {
                    Entry { operand: Operand::Value(value), alias: Some(prev) }
                }
            },
            Operand::Const(_) => Entry { operand: Operand::Value(value), alias: None },
        };
        self.stack[i] = renamed;
    }

    /// Takes the top `n` operands off.
    pub fn dropn(&mut self, n: usize)
        requires
            n <= old(self)@.len(),
        ensures
            final(self)@ == old(self)@.skip(n as int),
    {
        let rest = self.stack.split_off(n);
        self.stack = rest;
    }

    /// Takes the top four operands off.
    pub fn dropw(&mut self)
        requires
            4 <= old(self)@.len(),
        ensures
            final(self)@ == old(self)@.skip(4),
    {
        self.dropn(4);
    }
}

} // verus!
