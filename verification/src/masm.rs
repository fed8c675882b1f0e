//! The stack machine side: its operations, blocks of operations, and functions
//! made of blocks that refer to each other by identifier.

use vstd::prelude::*;

verus! {

/// Identifies a block within a stack machine [`Function`].
pub type BlockId = u32;

/// Identifies a callable function of the program.
pub type FuncId = u32;

/// The order of the native field: `2^64 - 2^32 + 1`.
pub const FELT_MODULUS: u64 = 0xFFFF_FFFF_0000_0001;

/// The largest position of the operand stack that a stack manipulation
/// operation can address.
pub const MAX_OPERAND_INDEX: usize = 15;

/// An element of the native field, held as its canonical representative.
#[derive(Clone, Copy, Debug, PartialEq, Eq, Hash)]
pub struct Felt {
    value: u64,
}

impl Felt {
    /// The integer below the modulus that this element stands for.
    pub closed spec fn view(self) -> nat {
        self.value as nat
    }

    /// The element congruent to `value`.
    pub closed spec fn of(value: u64) -> Felt {
        Felt { value: value % FELT_MODULUS }
    }

    /// The element congruent to `value`.
    pub fn new(value: u64) -> (felt: Felt)
        ensures
            felt == Felt::of(value),
            felt@ == value as nat % FELT_MODULUS as nat,
    {
        Felt { value: value % FELT_MODULUS }
    }

    /// The additive identity.
    pub fn zero() -> (felt: Felt)
        ensures
            felt == Felt::of(0),
            felt@ == 0,
    {
        Felt { value: 0 }
    }

    /// The multiplicative identity.
    pub fn one() -> (felt: Felt)
        ensures
            felt == Felt::of(1),
            felt@ == 1,
    {
        Felt { value: 1 }
    }

    /// `of` gives the element whose representative is the remainder.
    pub proof fn lemma_of(value: u64)
        ensures
            Felt::of(value)@ == value as nat % FELT_MODULUS as nat,
    {
    }

    /// The canonical representative as a machine integer.
    pub fn as_int(&self) -> (value: u64)
        ensures
            value as nat == self@,
    {
        self.value
    }

    /// Two elements with the same representative are the same element.
    pub proof fn lemma_view_injective(a: Felt, b: Felt)
        requires
            a@ == b@,
        ensures
            a == b,
    {
    }
}

/// The operators that computations of both machines are built from.
#[derive(Clone, Copy, Debug, PartialEq, Eq, Hash)]
pub enum Opcode {
    Add,
    Sub,
    Mul,
    Div,
    Mod,
    And,
    Or,
    Xor,
    Shl,
    Shr,
    Eq,
    Neq,
    Gt,
    Gte,
    Lt,
    Lte,
    Min,
    Max,
    Neg,
    Not,
    Inv,
    Incr,
    IsOdd,
    Assert,
    Assertz,
    AssertEq,
    Store,
    Select,
}

impl Opcode {
    /// Whether swapping the two operands of the operator leaves its result
    /// unchanged.
    pub open spec fn commutes(self) -> bool {
        self is Add || self is Mul || self is And || self is Or || self is Xor || self is Eq
            || self is Neq || self is Min || self is Max
    }

    /// Whether swapping the two operands of the operator leaves its result
    /// unchanged.
    pub fn is_commutative(&self) -> (result: bool)
        ensures
            result == self.commutes(),
    {
        match self {
            Opcode::Add
            | Opcode::Mul
            | Opcode::And
            | Opcode::Or
            | Opcode::Xor
            | Opcode::Eq
            | Opcode::Neq
            | Opcode::Min
            | Opcode::Max => true,
            _ => false,
        }
    }

    /// Whether evaluating the operator can be observed other than through its
    /// result: it traps or writes memory.
    pub open spec fn effectful(self) -> bool {
        self is Assert || self is Assertz || self is AssertEq || self is Store
    }

    /// Whether evaluating the operator can be observed other than through its
    /// result.
    pub fn has_side_effects(&self) -> (result: bool)
        ensures
            result == self.effectful(),
    {
        match self {
            Opcode::Assert | Opcode::Assertz | Opcode::AssertEq | Opcode::Store => true,
            _ => false,
        }
    }
}

/// One operation of the stack machine.
#[derive(Clone, Copy, Debug, PartialEq, Eq, Hash)]
pub enum Op {
    /// Push a field element.
    Push(Felt),
    /// Push two field elements; the second ends up on top.
    Push2(Felt, Felt),
    /// Push an 8-bit constant.
    PushU8(u8),
    /// Push a 32-bit constant.
    PushU32(u32),
    /// Discard the top operand.
    Drop,
    /// Discard the top four operands.
    Dropw,
    /// Push a copy of the operand at the given position.
    Dup(u8),
    /// Exchange the top operand with the one at the given position.
    Swap(u8),
    /// Take the operand at the given position out and push it on top.
    Movup(u8),
    /// Take the top operand off and put it at the given position.
    Movdn(u8),
    /// Replace the address on top by the word stored there.
    MemLoad,
    /// Push the word stored at the given address.
    MemLoadImm(u32),
    /// Copy memory; takes source, destination and count.
    MemCpy,
    /// Take the condition off the stack and run one of two blocks.
    If(BlockId, BlockId),
    /// Take the condition off the stack; while it is true run the block, which
    /// leaves the next condition on top.
    While(BlockId),
    /// Apply an operator to the top operand.
    Unary(Opcode),
    /// Apply an operator to the top two operands.
    Binary(Opcode),
    /// Replace the top operand by the outcome of a test on it.
    Test(Opcode),
    /// Apply a primitive that takes `inputs` operands and leaves `outputs`.
    Prim { opcode: Opcode, inputs: u8, outputs: u8 },
    /// Call a function that takes `inputs` operands and leaves `outputs`.
    Exec { callee: FuncId, inputs: u8, outputs: u8 },
    /// Run an opaque fragment that takes `inputs` operands and leaves `outputs`.
    Asm { fragment: u32, inputs: u8, outputs: u8 },
}

impl Op {
    /// How many operands the operation takes off the stack.
    pub open spec fn inputs(self) -> nat {
        match self {
            Op::Push(_) | Op::Push2(_, _) | Op::PushU8(_) | Op::PushU32(_) => 0,
            Op::Drop => 1,
            Op::Dropw => 4,
            Op::Dup(_) | Op::Swap(_) | Op::Movup(_) | Op::Movdn(_) => 0,
            Op::MemLoad => 1,
            Op::MemLoadImm(_) => 0,
            Op::MemCpy => 3,
            Op::If(_, _) | Op::While(_) => 1,
            Op::Unary(_) | Op::Test(_) => 1,
            Op::Binary(_) => 2,
            Op::Prim { inputs, .. } => inputs as nat,
            Op::Exec { inputs, .. } => inputs as nat,
            Op::Asm { inputs, .. } => inputs as nat,
        }
    }

    /// How many operands the operation puts on the stack.
    pub open spec fn outputs(self) -> nat {
        match self {
            Op::Push(_) | Op::PushU8(_) | Op::PushU32(_) => 1,
            Op::Push2(_, _) => 2,
            Op::Drop | Op::Dropw => 0,
            Op::Dup(_) => 1,
            Op::Swap(_) | Op::Movup(_) | Op::Movdn(_) => 0,
            Op::MemLoad | Op::MemLoadImm(_) => 1,
            Op::MemCpy => 0,
            Op::If(_, _) | Op::While(_) => 0,
            Op::Unary(_) | Op::Test(_) | Op::Binary(_) => 1,
            Op::Prim { outputs, .. } => outputs as nat,
            Op::Exec { outputs, .. } => outputs as nat,
            Op::Asm { outputs, .. } => outputs as nat,
        }
    }

    /// The change in the depth of the operand stack that the operation causes
    /// in the block that holds it.
    pub open spec fn stack_effect(self) -> int {
        self.outputs() - self.inputs()
    }
}

/// The change in stack depth caused by running `ops` one after another.
pub open spec fn net_effect(ops: Seq<Op>) -> int
    decreases ops.len(),
{
    if ops.len() == 0 {
        0
    } else {
        net_effect(ops.drop_last()) + ops.last().stack_effect()
    }
}

/// The effect of a sequence extended by one operation.
pub proof fn lemma_net_effect_push(ops: Seq<Op>, op: Op)
    ensures
        net_effect(ops.push(op)) == net_effect(ops) + op.stack_effect(),
{
    assert(ops.push(op).drop_last() =~= ops);
}

/// The effect of a concatenation is the sum of the effects.
pub proof fn lemma_net_effect_concat(a: Seq<Op>, b: Seq<Op>)
    ensures
        net_effect(a + b) == net_effect(a) + net_effect(b),
    decreases b.len(),
{
    if b.len() == 0 {
        assert(a + b =~= a);
    } else {
        lemma_net_effect_concat(a, b.drop_last());
        assert((a + b).drop_last() =~= a + b.drop_last());
        assert((a + b).last() == b.last());
    }
}

/// Whether `longer` begins with `shorter`.
pub open spec fn begins_with(longer: Seq<Op>, shorter: Seq<Op>) -> bool {
    shorter.len() <= longer.len() && longer.take(shorter.len() as int) == shorter
}

/// A sequence with more behind it begins with the sequence.
pub proof fn lemma_begins_with_more(ops: Seq<Op>, more: Seq<Op>)
    ensures
        begins_with(ops + more, ops),
        begins_with(ops, ops),
{
    assert((ops + more).take(ops.len() as int) =~= ops);
    assert(ops.take(ops.len() as int) =~= ops);
}

/// Whether none of `ops` passes control to another block.
pub open spec fn straight(ops: Seq<Op>) -> bool {
    forall|i: int| 0 <= i < ops.len() ==> !((#[trigger] ops[i]) is If) && !(ops[i] is While)
}

/// What `longer` holds behind `shorter`.
pub open spec fn written(longer: Seq<Op>, shorter: Seq<Op>) -> Seq<Op> {
    longer.skip(shorter.len() as int)
}

/// Whether `longer` is `shorter` with operations behind it that stay in the
/// block.
pub open spec fn grows(longer: Seq<Op>, shorter: Seq<Op>) -> bool {
    begins_with(longer, shorter) && straight(written(longer, shorter))
}

/// A sequence with straight operations behind it grows from the sequence by
/// those operations.
pub proof fn lemma_grows_more(ops: Seq<Op>, more: Seq<Op>)
    requires
        straight(more),
    ensures
        grows(ops + more, ops),
        written(ops + more, ops) == more,
{
    lemma_begins_with_more(ops, more);
    assert(written(ops + more, ops) =~= more);
}

/// A sequence grows from itself, by nothing.
pub proof fn lemma_grows_same(ops: Seq<Op>)
    ensures
        grows(ops, ops),
        written(ops, ops) == Seq::<Op>::empty(),
        net_effect(written(ops, ops)) == 0,
{
    lemma_begins_with_more(ops, Seq::empty());
    assert(written(ops, ops) =~= Seq::<Op>::empty());
}

/// Beginning with is transitive, and what was written adds up.
pub proof fn lemma_written_trans(last: Seq<Op>, mid: Seq<Op>, first: Seq<Op>)
    requires
        begins_with(mid, first),
        begins_with(last, mid),
    ensures
        begins_with(last, first),
        written(last, first) == written(mid, first) + written(last, mid),
        net_effect(written(last, first)) == net_effect(written(mid, first)) + net_effect(
            written(last, mid),
        ),
{
    assert(last.take(first.len() as int) =~= mid.take(first.len() as int));
    assert(written(last, first) =~= written(mid, first) + written(last, mid)) by {
        assert(mid =~= last.take(mid.len() as int));
    }
    lemma_net_effect_concat(written(mid, first), written(last, mid));
}

/// Growing is transitive, and what was written adds up.
pub proof fn lemma_grows_trans(last: Seq<Op>, mid: Seq<Op>, first: Seq<Op>)
    requires
        grows(mid, first),
        grows(last, mid),
    ensures
        grows(last, first),
        written(last, first) == written(mid, first) + written(last, mid),
        net_effect(written(last, first)) == net_effect(written(mid, first)) + net_effect(
            written(last, mid),
        ),
{
    lemma_written_trans(last, mid, first);
}

/// The same operation over and over has its effect as often.
pub proof fn lemma_net_effect_repeat(op: Op, count: nat)
    ensures
        net_effect(Seq::new(count, |i: int| op)) == count * op.stack_effect(),
        !(op is If) && !(op is While) ==> straight(Seq::new(count, |i: int| op)),
    decreases count,
{
    let ops = Seq::new(count, |i: int| op);
    let each = op.stack_effect();
    if count > 0 {
        lemma_net_effect_repeat(op, (count - 1) as nat);
        assert(ops.drop_last() =~= Seq::new((count - 1) as nat, |i: int| op));
        assert(ops.last() == op);
        assert(count * each == (count - 1) * each + each) by (nonlinear_arith);
    } else {
        assert(count * each == 0) by (nonlinear_arith)
            requires
                count == 0,
        ;
    }
}

/// The effect of one operation, and of two.
pub proof fn lemma_net_effect_few(a: Op, b: Op)
    ensures
        net_effect(seq![a]) == a.stack_effect(),
        net_effect(seq![a, b]) == a.stack_effect() + b.stack_effect(),
{
    lemma_net_effect_push(Seq::empty(), a);
    assert(Seq::<Op>::empty().push(a) =~= seq![a]);
    lemma_net_effect_push(seq![a], b);
    assert(seq![a].push(b) =~= seq![a, b]);
}

/// A block of the stack machine: operations that run in order.
#[derive(Clone, Debug, PartialEq, Eq)]
pub struct Block {
    pub ops: Vec<Op>,
}

impl View for Block {
    type V = Seq<Op>;

    open spec fn view(&self) -> Seq<Op> {
        self.ops@
    }
}

impl Block {
    /// A block without operations.
    pub fn new() -> (block: Block)
        ensures
            block@ == Seq::<Op>::empty(),
    {
        Block { ops: Vec::new() }
    }

    /// The number of operations in the block.
    pub fn len(&self) -> (n: usize)
        ensures
            n == self@.len(),
    {
        self.ops.len()
    }

    /// Appends one operation.
    pub fn push(&mut self, op: Op)
        ensures
            final(self)@ == old(self)@.push(op),
    {
        self.ops.push(op);
    }

    /// Appends `count` copies of `op`.
    pub fn push_n(&mut self, op: Op, count: usize)
        ensures
            final(self)@ == old(self)@ + Seq::new(count as nat, |i: int| op),
    {
        let mut i: usize = 0;
        while i < count
            invariant
                i <= count,
                self@ == old(self)@ + Seq::new(i as nat, |j: int| op),
            decreases count - i,
        {
            self.ops.push(op);
            i = i + 1;
            assert(self@ =~= old(self)@ + Seq::new(i as nat, |j: int| op));
        }
    }
}

/// A function of the stack machine: blocks that refer to each other by
/// position, the first of which, `body`, is where execution starts.
#[derive(Clone, Debug, PartialEq, Eq)]
pub struct Function {
    pub id: FuncId,
    pub body: BlockId,
    pub blocks: Vec<Block>,
}

impl View for Function {
    type V = Seq<Seq<Op>>;

    /// The operations of each block.
    open spec fn view(&self) -> Seq<Seq<Op>> {
        Seq::new(self.blocks@.len(), |k: int| self.blocks@[k]@)
    }
}

/// Whether every block that `ops` passes control to is one of the first
/// `count` blocks.
pub open spec fn refers_within(ops: Seq<Op>, count: int) -> bool {
    forall|i: int|
        0 <= i < ops.len() ==> match #[trigger] ops[i] {
            Op::If(then_blk, else_blk) => then_blk < count && else_blk < count,
            Op::While(body) => body < count,
            _ => true,
        }
}

impl Function {
    /// Whether the function is sound: its body is one of its blocks, and so
    /// is every block that one of its blocks passes control to.
    pub open spec fn wf(&self) -> bool {
        &&& (self.body as int) < self.blocks@.len()
        &&& forall|k: int|
            0 <= k < self.blocks@.len() ==> refers_within(
                (#[trigger] self.blocks@[k])@,
                self.blocks@.len() as int,
            )
    }

    /// A function that consists of one empty block, its body.
    pub fn new(id: FuncId) -> (function: Function)
        ensures
            function.id == id,
            function.body == 0,
            function.blocks@.len() == 1,
            function.blocks@[0]@ == Seq::<Op>::empty(),
            function.wf(),
    {
        let mut blocks: Vec<Block> = Vec::new();
        blocks.push(Block::new());
        Function { id, body: 0, blocks }
    }

    /// Whether one more block can be created.
    pub open spec fn has_room(&self) -> bool {
        self.blocks@.len() < u32::MAX
    }

    /// Adds an empty block and returns its identifier.
    pub fn create_block(&mut self) -> (id: BlockId)
        requires
            old(self).has_room(),
        ensures
            id == old(self).blocks@.len(),
            final(self).blocks@ == old(self).blocks@.push(final(self).blocks@[id as int]),
            final(self).blocks@[id as int]@ == Seq::<Op>::empty(),
            final(self).id == old(self).id,
            final(self).body == old(self).body,
            old(self).wf() ==> final(self).wf(),
    {
        let id: u32 = self.blocks.len() as u32;
        self.blocks.push(Block::new());
        proof {
            if old(self).wf() {
                assert forall|k: int| 0 <= k < self.blocks@.len() implies refers_within(
                    (#[trigger] self.blocks@[k])@,
                    self.blocks@.len() as int,
                ) by {
                    if k < old(self).blocks@.len() {
                        assert(self.blocks@[k] == old(self).blocks@[k]);
                        assert(refers_within(
                            old(self).blocks@[k]@,
                            old(self).blocks@.len() as int,
                        ));
                    }
                }
            }
        }
        id
    }

    /// Appends one operation to the block `id`.
    pub fn push_op(&mut self, id: BlockId, op: Op)
        requires
            (id as int) < old(self).blocks@.len(),
        ensures
            final(self).blocks@.len() == old(self).blocks@.len(),
            final(self).blocks@[id as int]@ == old(self).blocks@[id as int]@.push(op),
            forall|k: int|
                0 <= k < old(self).blocks@.len() && k != id ==> final(self).blocks@[k] == old(
                    self,
                ).blocks@[k],
            final(self).id == old(self).id,
            final(self).body == old(self).body,
            old(self).wf() && refers_within(seq![op], old(self).blocks@.len() as int)
                ==> final(self).wf(),
    {
        let mut block = Block::new();
        std::mem::swap(&mut block.ops, &mut self.blocks[id as usize].ops);
        block.ops.push(op);
        std::mem::swap(&mut block.ops, &mut self.blocks[id as usize].ops);
        proof {
            if old(self).wf() && refers_within(seq![op], old(self).blocks@.len() as int) {
                assert(seq![op][0] == op);
                assert forall|k: int| 0 <= k < self.blocks@.len() implies refers_within(
                    (#[trigger] self.blocks@[k])@,
                    self.blocks@.len() as int,
                ) by {
                    assert(refers_within(old(self).blocks@[k]@, old(self).blocks@.len() as int));
                    if k == id {
                        assert forall|i: int| 0 <= i < self.blocks@[k]@.len() implies match #[trigger] self.blocks@[k]@[i] {
                            Op::If(then_blk, else_blk) => then_blk < self.blocks@.len()
                                && else_blk < self.blocks@.len(),
                            Op::While(body) => body < self.blocks@.len(),
                            _ => true,
                        } by {
                            if i < old(self).blocks@[k]@.len() {
                                assert(self.blocks@[k]@[i] == old(self).blocks@[k]@[i]);
                            }
                        }
                    }
                }
            }
        }
    }
}

} // verus!
