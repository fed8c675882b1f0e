//! The SSA side: functions as flat lists of basic blocks, with the values,
//! instructions and global values that the blocks refer to by identifier, and the
//! program-wide tables that addresses are resolved against.

use vstd::prelude::*;
use crate::masm::{Felt, FuncId, Opcode};

verus! {

/// Identifies an SSA value of a [`Function`].
pub type Value = u32;

/// Identifies a basic block of a [`Function`].
pub type Block = u32;

/// Identifies an instruction of a [`Function`].
pub type Inst = u32;

/// Identifies a global value of a [`Function`].
pub type GlobalValue = u32;

/// Identifies an interned name.
pub type Symbol = u32;

/// The most instructions a block can hold: each gets a 16-bit position that
/// starts at one.
pub const MAX_BLOCK_INSTS: usize = 0xFFFE;

/// A constant operand.
#[derive(Clone, Copy, Debug, PartialEq, Eq, Hash)]
pub enum Immediate {
    I1(bool),
    U8(u8),
    U16(u16),
    U32(u32),
    U64(u64),
    Felt(Felt),
    I8(i8),
    I16(i16),
    I32(i32),
    I64(i64),
    I128(i128),
    /// A double, held as its bit pattern.
    F64(u64),
}

impl Immediate {
    /// Whether the two constants are the same.
    pub fn is(&self, other: &Immediate) -> (same: bool)
        ensures
            same == (*self == *other),
    {
        match (self, other) {
            (Immediate::I1(a), Immediate::I1(b)) => *a == *b,
            (Immediate::U8(a), Immediate::U8(b)) => *a == *b,
            (Immediate::U16(a), Immediate::U16(b)) => *a == *b,
            (Immediate::U32(a), Immediate::U32(b)) => *a == *b,
            (Immediate::U64(a), Immediate::U64(b)) => *a == *b,
            (Immediate::Felt(a), Immediate::Felt(b)) => {
                proof {
                    if a@ == b@ {
                        Felt::lemma_view_injective(*a, *b);
                    }
                }
                a.as_int() == b.as_int()
            },
            (Immediate::I8(a), Immediate::I8(b)) => *a == *b,
            (Immediate::I16(a), Immediate::I16(b)) => *a == *b,
            (Immediate::I32(a), Immediate::I32(b)) => *a == *b,
            (Immediate::I64(a), Immediate::I64(b)) => *a == *b,
            (Immediate::I128(a), Immediate::I128(b)) => *a == *b,
            (Immediate::F64(a), Immediate::F64(b)) => *a == *b,
            _ => false,
        }
    }
}

/// A place in a function that an analysis can be asked about.
#[derive(Clone, Copy, Debug, PartialEq, Eq, Hash)]
pub enum ProgramPoint {
    /// The entry of a block.
    Block(Block),
    /// An instruction.
    Inst(Inst),
}

/// Where a value comes from.
#[derive(Clone, Copy, Debug, PartialEq, Eq, Hash)]
pub enum ValueData {
    /// The value is a parameter of a block.
    Param { block: Block, index: u16 },
    /// The value is a result of an instruction.
    Inst { inst: Inst, index: u16 },
}

/// One layer of the description of a global value.
#[derive(Clone, Copy, Debug, PartialEq, Eq, Hash)]
pub enum GlobalValueData {
    /// The address of a global variable, displaced by `offset`.
    Symbol { name: Symbol, offset: i32 },
    /// The address described by `base`, displaced by `offset`.
    IAddImm { base: GlobalValue, offset: i32 },
    /// The word stored at the address described by `base`, displaced by
    /// `offset`; the word spans `felts` field elements.
    Load { base: GlobalValue, offset: i32, felts: u32 },
}

impl GlobalValueData {
    /// The displacement that this layer adds.
    pub open spec fn spec_offset(self) -> int {
        match self {
            GlobalValueData::Symbol { offset, .. } => offset as int,
            GlobalValueData::IAddImm { offset, .. } => offset as int,
            GlobalValueData::Load { offset, .. } => offset as int,
        }
    }

    /// The displacement that this layer adds.
    pub fn offset(&self) -> (offset: i32)
        ensures
            offset == self.spec_offset(),
    {
        match self {
            GlobalValueData::Symbol { offset, .. } => *offset,
            GlobalValueData::IAddImm { offset, .. } => *offset,
            GlobalValueData::Load { offset, .. } => *offset,
        }
    }

    /// The layer that this one builds on, if it is not a symbol.
    pub open spec fn base(self) -> Option<GlobalValue> {
        match self {
            GlobalValueData::Symbol { .. } => None,
            GlobalValueData::IAddImm { base, .. } => Some(base),
            GlobalValueData::Load { base, .. } => Some(base),
        }
    }
}

/// What an instruction does; the values it reads are held beside it in
/// [`InstData::args`], except those it hands to the blocks it branches to.
#[derive(Clone, Debug, PartialEq, Eq)]
pub enum Instruction {
    GlobalValue(GlobalValue),
    UnaryOp(Opcode),
    UnaryOpImm(Opcode, Immediate),
    BinaryOp(Opcode),
    BinaryOpImm(Opcode, Immediate),
    Test(Opcode),
    Load,
    PrimOp(Opcode),
    PrimOpImm(Opcode, Immediate),
    Call(FuncId),
    MemCpy,
    InlineAsm(u32),
    Ret,
    RetImm(Immediate),
    Br { destination: Block, args: Vec<Value> },
    CondBr { then_dest: Block, then_args: Vec<Value>, else_dest: Block, else_args: Vec<Value> },
    Switch { arms: Vec<(u32, Block)>, default: Block },
}

impl Instruction {
    /// Whether the instruction ends its block.
    pub open spec fn terminates(&self) -> bool {
        self is Ret || self is RetImm || self is Br || self is CondBr || self is Switch
    }

    /// Whether the instruction ends its block.
    pub fn is_terminator(&self) -> (result: bool)
        ensures
            result == self.terminates(),
    {
        match self {
            Instruction::Ret
            | Instruction::RetImm(_)
            | Instruction::Br { .. }
            | Instruction::CondBr { .. }
            | Instruction::Switch { .. } => true,
            _ => false,
        }
    }

    /// Whether the instruction can be observed other than through its
    /// results: stores, calls, traps and terminators can.
    pub open spec fn effectful(&self) -> bool {
        match self {
            Instruction::GlobalValue(_) | Instruction::Load => false,
            Instruction::UnaryOp(op)
            | Instruction::BinaryOp(op)
            | Instruction::Test(op)
            | Instruction::PrimOp(op) => op.effectful(),
            Instruction::UnaryOpImm(op, _)
            | Instruction::BinaryOpImm(op, _)
            | Instruction::PrimOpImm(op, _) => op.effectful(),
            _ => true,
        }
    }

    /// Whether the instruction can be observed other than through its
    /// results.
    pub fn has_side_effects(&self) -> (result: bool)
        ensures
            result == self.effectful(),
    {
        match self {
            Instruction::GlobalValue(_) | Instruction::Load => false,
            Instruction::UnaryOp(op)
            | Instruction::BinaryOp(op)
            | Instruction::Test(op)
            | Instruction::PrimOp(op) => op.has_side_effects(),
            Instruction::UnaryOpImm(op, _)
            | Instruction::BinaryOpImm(op, _)
            | Instruction::PrimOpImm(op, _) => op.has_side_effects(),
            _ => true,
        }
    }

    /// Whether the instruction applies an operator to exactly two values.
    pub open spec fn binary(&self) -> bool {
        self is BinaryOp
    }

    /// Whether the instruction applies an operator to exactly two values.
    pub fn is_binary(&self) -> (result: bool)
        ensures
            result == self.binary(),
    {
        match self {
            Instruction::BinaryOp(_) => true,
            _ => false,
        }
    }

    /// Whether the order of the operands does not matter to the instruction.
    pub open spec fn commutes(&self) -> bool {
        match self {
            Instruction::BinaryOp(op) => op.commutes(),
            Instruction::BinaryOpImm(op, _) => op.commutes(),
            _ => false,
        }
    }

    /// Whether the order of the operands does not matter to the instruction.
    pub fn is_commutative(&self) -> (result: bool)
        ensures
            result == self.commutes(),
    {
        match self {
            Instruction::BinaryOp(op) => op.is_commutative(),
            Instruction::BinaryOpImm(op, _) => op.is_commutative(),
            _ => false,
        }
    }

    /// The values that the instruction hands to the blocks it branches to, one
    /// destination after the other.
    pub open spec fn branch_args(&self) -> Seq<Value> {
        match self {
            Instruction::Br { args, .. } => args@,
            Instruction::CondBr { then_args, else_args, .. } => then_args@ + else_args@,
            _ => Seq::empty(),
        }
    }

    /// The blocks that the instruction can pass control to.
    pub open spec fn destinations(&self) -> Seq<Block> {
        match self {
            Instruction::Br { destination, .. } => seq![*destination],
            Instruction::CondBr { then_dest, else_dest, .. } => seq![*then_dest, *else_dest],
            Instruction::Switch { arms, default } => arms@.map_values(|arm: (u32, Block)| arm.1).push(
                *default,
            ),
            _ => Seq::empty(),
        }
    }
}

/// An instruction in its block.
#[derive(Clone, Debug, PartialEq, Eq)]
pub struct InstData {
    /// The block that holds the instruction.
    pub block: Block,
    /// What the instruction does.
    pub ix: Instruction,
    /// The values it reads as operands, first operand first.
    pub args: Vec<Value>,
    /// The values it defines, first result first.
    pub results: Vec<Value>,
}

impl InstData {
    /// Every value that the instruction reads: its operands, then what it
    /// hands to its destinations.
    pub open spec fn uses(&self) -> Seq<Value> {
        self.args@ + self.ix.branch_args()
    }

    /// Every value that the instruction reads: its operands, then what it
    /// hands to its destinations.
    pub fn used_values(&self) -> (used: Vec<Value>)
        ensures
            used@ == self.uses(),
    {
        let mut used: Vec<Value> = self.args.clone();
        match &self.ix {
            Instruction::Br { args, .. } => {
                let mut tail: Vec<Value> = args.clone();
                used.append(&mut tail);
            },
            Instruction::CondBr { then_args, else_args, .. } => {
                let mut tail: Vec<Value> = then_args.clone();
                used.append(&mut tail);
                let mut tail: Vec<Value> = else_args.clone();
                used.append(&mut tail);
                assert(used@ =~= self.args@ + (then_args@ + else_args@));
            },
            _ => {
                assert(used@ =~= self.args@ + Seq::<Value>::empty());
            },
        }
        used
    }
}

/// A basic block: its parameters and its instructions in program order.
#[derive(Clone, Debug, PartialEq, Eq)]
pub struct BlockData {
    pub params: Vec<Value>,
    pub insts: Vec<Inst>,
}

/// An SSA function.
#[derive(Clone, Debug, PartialEq, Eq)]
pub struct Function {
    pub id: FuncId,
    /// The block where execution starts.
    pub entry: Block,
    /// The blocks, by identifier.
    pub blocks: Vec<BlockData>,
    /// The instructions, by identifier.
    pub insts: Vec<InstData>,
    /// The origin of each value, by identifier.
    pub values: Vec<ValueData>,
    /// The global values, by identifier.
    pub globals: Vec<GlobalValueData>,
}

impl Function {
    /// Whether every value in `values` is one of the function.
    pub open spec fn values_known(&self, values: Seq<Value>) -> bool {
        forall|k: int| 0 <= k < values.len() ==> (#[trigger] values[k] as int) < self.values@.len()
    }

    /// Whether the block `b` is sound: it is not empty, not too long, and its
    /// instructions and parameters exist, the instructions pointing back at it.
    pub open spec fn block_wf(&self, b: int) -> bool {
        let data = self.blocks@[b];
        &&& 0 < data.insts@.len() <= MAX_BLOCK_INSTS
        &&& self.values_known(data.params@)
        &&& forall|k: int|
            0 <= k < data.insts@.len() ==> {
                &&& (#[trigger] data.insts@[k] as int) < self.insts@.len()
                &&& self.insts@[data.insts@[k] as int].block == b
            }
    }

    /// Whether the instruction `i` is sound: what it names exists.
    pub open spec fn inst_wf(&self, i: int) -> bool {
        let data = self.insts@[i];
        &&& (data.block as int) < self.blocks@.len()
        &&& self.values_known(data.args@)
        &&& self.values_known(data.results@)
        &&& self.values_known(data.ix.branch_args())
        &&& forall|k: int|
            0 <= k < data.ix.destinations().len() ==> (#[trigger] data.ix.destinations()[k] as int)
                < self.blocks@.len()
        &&& (data.ix matches Instruction::GlobalValue(gv) ==> (gv as int) < self.globals@.len())
    }

    /// Whether the value `v` is sound: its origin exists.
    pub open spec fn value_wf(&self, v: int) -> bool {
        match self.values@[v] {
            ValueData::Param { block, .. } => (block as int) < self.blocks@.len(),
            ValueData::Inst { inst, .. } => (inst as int) < self.insts@.len(),
        }
    }

    /// Whether the global value `g` is sound: it builds on an earlier one, or
    /// on none.
    pub open spec fn global_wf(&self, g: int) -> bool {
        match self.globals@[g].base() {
            Some(base) => (base as int) < g,
            None => true,
        }
    }

    /// Whether the function is sound: the tables are small enough for their
    /// identifiers and everything named in them exists.
    pub open spec fn wf(&self) -> bool {
        &&& self.blocks@.len() <= u32::MAX
        &&& self.insts@.len() <= u32::MAX
        &&& self.values@.len() <= u32::MAX
        &&& self.globals@.len() <= u32::MAX
        &&& (self.entry as int) < self.blocks@.len()
        &&& forall|b: int| 0 <= b < self.blocks@.len() ==> #[trigger] self.block_wf(b)
        &&& forall|i: int| 0 <= i < self.insts@.len() ==> #[trigger] self.inst_wf(i)
        &&& forall|v: int| 0 <= v < self.values@.len() ==> #[trigger] self.value_wf(v)
        &&& forall|g: int| 0 <= g < self.globals@.len() ==> #[trigger] self.global_wf(g)
    }

    /// Whether every value in `values` is one of the function.
    fn knows_values(&self, values: &[Value]) -> (result: bool)
        ensures
            result == self.values_known(values@),
    {
        let mut k: usize = 0;
        while k < values.len()
            invariant
                k <= values@.len(),
                forall|j: int| 0 <= j < k ==> (#[trigger] values@[j] as int) < self.values@.len(),
            decreases values@.len() - k,
        {
            if values[k] as usize >= self.values.len() {
                return false;
            }
            k = k + 1;
        }
        true
    }

    /// Whether the block `b` is sound.
    fn check_block(&self, b: usize) -> (result: bool)
        requires
            b < self.blocks@.len(),
        ensures
            result == self.block_wf(b as int),
    {
        let data = &self.blocks[b];
        if data.insts.len() == 0 || data.insts.len() > MAX_BLOCK_INSTS {
            return false;
        }
        if !self.knows_values(data.params.as_slice()) {
            return false;
        }
        let mut k: usize = 0;
        while k < data.insts.len()
            invariant
                k <= data.insts@.len(),
                *data == self.blocks@[b as int],
                forall|j: int|
                    0 <= j < k ==> (#[trigger] data.insts@[j] as int) < self.insts@.len()
                        && self.insts@[data.insts@[j] as int].block == b,
            decreases data.insts@.len() - k,
        {
            let inst = data.insts[k];
            if inst as usize >= self.insts.len() {
                return false;
            }
            if self.insts[inst as usize].block as usize != b {
                return false;
            }
            k = k + 1;
        }
        true
    }

    /// Whether the instruction `i` is sound.
    fn check_inst(&self, i: usize) -> (result: bool)
        requires
            i < self.insts@.len(),
        ensures
            result == self.inst_wf(i as int),
    {
        let data = &self.insts[i];
        if data.block as usize >= self.blocks.len() {
            return false;
        }
        if !self.knows_values(data.args.as_slice()) || !self.knows_values(data.results.as_slice()) {
            return false;
        }
        match &data.ix {
            Instruction::GlobalValue(gv) => (*gv as usize) < self.globals.len(),
            Instruction::Br { destination, args } => {
                let ok = (*destination as usize) < self.blocks.len() && self.knows_values(
                    args.as_slice(),
                );
                proof {
                    if (*destination as int) < self.blocks@.len() {
                        assert forall|k: int| 0 <= k < data.ix.destinations().len() implies (
                        #[trigger] data.ix.destinations()[k] as int) < self.blocks@.len() by {}
                    } else {
                        assert(data.ix.destinations()[0] == *destination);
                    }
                }
                ok
            },
            Instruction::CondBr { then_dest, then_args, else_dest, else_args } => {
                let dests = (*then_dest as usize) < self.blocks.len() && (*else_dest as usize)
                    < self.blocks.len();
                let thens = self.knows_values(then_args.as_slice());
                let elses = self.knows_values(else_args.as_slice());
                proof {
                    let all = then_args@ + else_args@;
                    if thens && elses {
                        assert forall|k: int| 0 <= k < all.len() implies (#[trigger] all[k] as int)
                            < self.values@.len() by {
                            if k < then_args@.len() {
                                assert(all[k] == then_args@[k]);
                            } else {
                                assert(all[k] == else_args@[k - then_args@.len()]);
                            }
                        }
                    } else if !thens {
                        let k = choose|k: int|
                            0 <= k < then_args@.len() && !((#[trigger] then_args@[k] as int)
                                < self.values@.len());
                        assert(all[k] == then_args@[k]);
                    } else {
                        let k = choose|k: int|
                            0 <= k < else_args@.len() && !((#[trigger] else_args@[k] as int)
                                < self.values@.len());
                        assert(all[k + then_args@.len()] == else_args@[k]);
                    }
                    if dests {
                        assert forall|k: int| 0 <= k < data.ix.destinations().len() implies (
                        #[trigger] data.ix.destinations()[k] as int) < self.blocks@.len() by {}
                    } else {
                        assert(data.ix.destinations()[0] == *then_dest);
                        assert(data.ix.destinations()[1] == *else_dest);
                    }
                }
                dests && thens && elses
            },
            Instruction::Switch { arms, default } => {
                if (*default as usize) >= self.blocks.len() {
                    proof {
                        assert(data.ix.destinations()[arms@.len() as int] == *default);
                    }
                    return false;
                }
                let mut k: usize = 0;
                while k < arms.len()
                    invariant
                        k <= arms@.len(),
                        i < self.insts@.len(),
                        *data == self.insts@[i as int],
                        data.ix == (Instruction::Switch { arms: *arms, default: *default }),
                        forall|j: int| 0 <= j < k ==> ((#[trigger] arms@[j]).1 as int) < self.blocks@.len(),
                    decreases arms@.len() - k,
                {
                    if arms[k].1 as usize >= self.blocks.len() {
                        proof {
                            assert(data.ix.destinations()[k as int] == arms@[k as int].1);
                        }
                        return false;
                    }
                    k = k + 1;
                }
                proof {
                    assert forall|j: int| 0 <= j < data.ix.destinations().len() implies (
                    #[trigger] data.ix.destinations()[j] as int) < self.blocks@.len() by {
                        if j < arms@.len() {
                            assert(data.ix.destinations()[j] == arms@[j].1);
                        }
                    }
                }
                true
            },
            _ => {
                proof {
                    assert(data.ix.destinations().len() == 0);
                }
                true
            },
        }
    }

    /// Whether the function is sound.
    pub fn validate(&self) -> (result: bool)
        ensures
            result == self.wf(),
    {
        if self.blocks.len() > u32::MAX as usize || self.insts.len() > u32::MAX as usize
            || self.values.len() > u32::MAX as usize || self.globals.len() > u32::MAX as usize {
            return false;
        }
        if self.entry as usize >= self.blocks.len() {
            return false;
        }
        let mut b: usize = 0;
        while b < self.blocks.len()
            invariant
                b <= self.blocks@.len(),
                forall|j: int| 0 <= j < b ==> #[trigger] self.block_wf(j),
            decreases self.blocks@.len() - b,
        {
            if !self.check_block(b) {
                return false;
            }
            b = b + 1;
        }
        let mut i: usize = 0;
        while i < self.insts.len()
            invariant
                i <= self.insts@.len(),
                forall|j: int| 0 <= j < i ==> #[trigger] self.inst_wf(j),
            decreases self.insts@.len() - i,
        {
            if !self.check_inst(i) {
                return false;
            }
            i = i + 1;
        }
        let mut v: usize = 0;
        while v < self.values.len()
            invariant
                v <= self.values@.len(),
                forall|j: int| 0 <= j < v ==> #[trigger] self.value_wf(j),
            decreases self.values@.len() - v,
        {
            let ok = match self.values[v] {
                ValueData::Param { block, .. } => (block as usize) < self.blocks.len(),
                ValueData::Inst { inst, .. } => (inst as usize) < self.insts.len(),
            };
            if !ok {
                assert(!self.value_wf(v as int));
                return false;
            }
            v = v + 1;
        }
        let mut g: usize = 0;
        while g < self.globals.len()
            invariant
                g <= self.globals@.len(),
                forall|j: int| 0 <= j < g ==> #[trigger] self.global_wf(j),
            decreases self.globals@.len() - g,
        {
            let ok = match self.globals[g] {
                GlobalValueData::Symbol { .. } => true,
                GlobalValueData::IAddImm { base, .. } => (base as usize) < g,
                GlobalValueData::Load { base, .. } => (base as usize) < g,
            };
            if !ok {
                assert(!self.global_wf(g as int));
                return false;
            }
            g = g + 1;
        }
        true
    }

    /// The parameters of `block`.
    pub fn block_args(&self, block: Block) -> (params: &Vec<Value>)
        requires
            (block as int) < self.blocks@.len(),
        ensures
            params@ == self.blocks@[block as int].params@,
    {
        &self.blocks[block as usize].params
    }

    /// The instructions of `block` in program order.
    pub fn block_insts(&self, block: Block) -> (insts: &Vec<Inst>)
        requires
            (block as int) < self.blocks@.len(),
        ensures
            insts@ == self.blocks@[block as int].insts@,
    {
        &self.blocks[block as usize].insts
    }

    /// The last instruction of `block`, if it has any.
    pub fn last_inst(&self, block: Block) -> (last: Option<Inst>)
        requires
            (block as int) < self.blocks@.len(),
        ensures
            last == (if self.blocks@[block as int].insts@.len() == 0 {
                None
            } else {
                Some(self.blocks@[block as int].insts@.last())
            }),
    {
        let insts = &self.blocks[block as usize].insts;
        if insts.len() == 0 {
            None
        } else {
            Some(insts[insts.len() - 1])
        }
    }

    /// The instruction `inst`.
    pub fn inst(&self, inst: Inst) -> (data: &InstData)
        requires
            (inst as int) < self.insts@.len(),
        ensures
            *data == self.insts@[inst as int],
    {
        &self.insts[inst as usize]
    }

    /// The values that `inst` defines.
    pub fn inst_results(&self, inst: Inst) -> (results: &Vec<Value>)
        requires
            (inst as int) < self.insts@.len(),
        ensures
            results@ == self.insts@[inst as int].results@,
    {
        &self.insts[inst as usize].results
    }

    /// The origin of `value`.
    pub fn value_data(&self, value: Value) -> (data: ValueData)
        requires
            (value as int) < self.values@.len(),
        ensures
            data == self.values@[value as int],
    {
        self.values[value as usize]
    }

    /// The global value `gv`.
    pub fn global_value(&self, gv: GlobalValue) -> (data: GlobalValueData)
        requires
            (gv as int) < self.globals@.len(),
        ensures
            data == self.globals@[gv as int],
    {
        self.globals[gv as usize]
    }
}

/// A global variable as the linker laid it out.
#[derive(Clone, Copy, Debug, PartialEq, Eq, Hash)]
pub struct GlobalVariable {
    pub name: Symbol,
    /// Where the variable starts, counted from the start of the global table.
    pub offset: u32,
}

/// What the pass reads of the linked program.
#[derive(Clone, Debug, PartialEq, Eq)]
pub struct Program {
    /// The first address after the data segments, where the global table
    /// starts.
    pub next_available_offset: u32,
    /// The global variables in the order of their layout.
    pub globals: Vec<GlobalVariable>,
}

impl Program {
    /// The position of the first global variable called `name`, if any.
    pub open spec fn spec_find(&self, name: Symbol) -> Option<int> {
        if exists|k: int| 0 <= k < self.globals@.len() && self.globals@[k].name == name {
            Some(
                choose|k: int|
                    0 <= k < self.globals@.len() && self.globals@[k].name == name && forall|j: int|
                        0 <= j < k ==> self.globals@[j].name != name,
            )
        } else {
            None
        }
    }

    /// The position of the first global variable called `name`, if any.
    pub fn find(&self, name: Symbol) -> (found: Option<usize>)
        ensures
            match found {
                Some(k) => {
                    &&& k < self.globals@.len()
                    &&& self.globals@[k as int].name == name
                    &&& forall|j: int| 0 <= j < k ==> self.globals@[j].name != name
                    &&& self.spec_find(name) == Some(k as int)
                },
                None => {
                    &&& forall|j: int| 0 <= j < self.globals@.len() ==> self.globals@[j].name != name
                    &&& self.spec_find(name) is None
                },
            },
    {
        let mut k: usize = 0;
        while k < self.globals.len()
            invariant
                k <= self.globals@.len(),
                forall|j: int| 0 <= j < k ==> self.globals@[j].name != name,
            decreases self.globals@.len() - k,
        {
            if self.globals[k].name == name {
                proof {
                    let w = self.spec_find(name)->0;
                    assert(0 <= w < self.globals@.len() && self.globals@[w].name == name
                        && forall|j: int| 0 <= j < w ==> self.globals@[j].name != name);
                    assert(w == k) by {
                        if w < k {
                            assert(self.globals@[w].name != name);
                        }
                        if k < w {
                            assert(self.globals@[k as int].name != name);
                        }
                    }
                }
                return Some(k);
            }
            k = k + 1;
        }
        None
    }

    /// Where the global variable at position `var` starts, counted from the
    /// start of the global table.
    pub fn offset_of(&self, var: usize) -> (offset: u32)
        requires
            var < self.globals@.len(),
        ensures
            offset == self.globals@[var as int].offset,
    {
        self.globals[var].offset
    }
}

} // verus!
