use stackify::analysis::{FunctionAnalysis, LivenessAnalysis, LoopAnalysis};
use stackify::error::{ErrorKind, StackifyError};
use stackify::hir::{
    BlockData, Function, GlobalValueData, GlobalVariable, Immediate, InstData, Instruction,
    Program, Value, ValueData,
};
use stackify::masm::{Felt, Op, Opcode};
use stackify::pass::Stackify;

fn program() -> Program {
    Program { next_available_offset: 0, globals: vec![] }
}

fn param(block: u32, index: u16) -> ValueData {
    ValueData::Param { block, index }
}

fn result(inst: u32) -> ValueData {
    ValueData::Inst { inst, index: 0 }
}

fn inst(block: u32, ix: Instruction, args: &[Value], results: &[Value]) -> InstData {
    InstData { block, ix, args: args.to_vec(), results: results.to_vec() }
}

fn block(params: &[Value], insts: &[u32]) -> BlockData {
    BlockData { params: params.to_vec(), insts: insts.to_vec() }
}

fn analysis(f: &Function, headers: &[Option<u32>], levels: &[usize]) -> FunctionAnalysis {
    FunctionAnalysis {
        loops: Some(LoopAnalysis { headers: headers.to_vec(), levels: levels.to_vec() }),
        liveness: Some(LivenessAnalysis {
            live_at_block: vec![vec![]; f.blocks.len()],
            live_after_block: vec![vec![]; f.blocks.len()],
            live_at_inst: vec![vec![]; f.insts.len()],
            live_after_inst: vec![vec![]; f.insts.len()],
        }),
    }
}

fn binary_then_ret(first: Value, second: Value, params: &[Value]) -> Function {
    let mut values: Vec<ValueData> =
        (0..params.len()).map(|i| param(0, i as u16)).collect();
    let sum = values.len() as u32;
    values.push(result(0));
    Function {
        id: 7,
        entry: 0,
        blocks: vec![block(params, &[0, 1])],
        insts: vec![
            inst(0, Instruction::BinaryOp(Opcode::Add), &[first, second], &[sum]),
            inst(0, Instruction::Ret, &[sum], &[]),
        ],
        values,
        globals: vec![],
    }
}

fn lower(f: &Function, analysis: &FunctionAnalysis) -> Result<Vec<Vec<Op>>, StackifyError> {
    let program = program();
    let mut pass = Stackify::new(&program, analysis);
    let lowered = pass.run(f)?;
    assert_eq!(lowered.id, f.id);
    assert_eq!(lowered.body, 0);
    Ok(lowered.blocks.into_iter().map(|block| block.ops).collect())
}

#[test]
fn straight_line_add() {
    let f = binary_then_ret(0, 1, &[0, 1]);
    let a = analysis(&f, &[None], &[0]);
    assert_eq!(lower(&f, &a), Ok(vec![vec![Op::Binary(Opcode::Add)]]));
}

#[test]
fn duplicate_use() {
    let f = binary_then_ret(0, 0, &[0]);
    let a = analysis(&f, &[None], &[0]);
    assert_eq!(lower(&f, &a), Ok(vec![vec![Op::Dup(0), Op::Binary(Opcode::Add)]]));
}

#[test]
fn commutative_swap_elision() {
    let f = binary_then_ret(1, 0, &[0, 1]);
    let a = analysis(&f, &[None], &[0]);
    assert_eq!(lower(&f, &a), Ok(vec![vec![Op::Binary(Opcode::Add)]]));
}

#[test]
fn non_commutative_operands_keep_their_order() {
    // v2 = sub v0, v1 with v0 on top: the second operand is brought to the
    // top, then the first, which leaves the first operand on top.
    let mut f = binary_then_ret(0, 1, &[0, 1]);
    f.insts[0].ix = Instruction::BinaryOp(Opcode::Sub);
    let a = analysis(&f, &[None], &[0]);
    assert_eq!(
        lower(&f, &a),
        Ok(vec![vec![Op::Swap(1), Op::Swap(1), Op::Binary(Opcode::Sub)]])
    );
}

#[test]
fn non_commutative_operands_are_put_in_order() {
    // v2 = sub v1, v0 with v0 on top: v0 is on top already, and v1 is moved
    // above it.
    let mut f = binary_then_ret(1, 0, &[0, 1]);
    f.insts[0].ix = Instruction::BinaryOp(Opcode::Sub);
    let a = analysis(&f, &[None], &[0]);
    assert_eq!(lower(&f, &a), Ok(vec![vec![Op::Swap(1), Op::Binary(Opcode::Sub)]]));
}

#[test]
fn computed_and_fetched_operands_agree_on_the_order() {
    // v2 = neg v1; v3 = sub v2, v0; ret v3, with v0 on top of v1: the first
    // operand is computed on top of the second, which was fetched.
    let f = Function {
        id: 1,
        entry: 0,
        blocks: vec![block(&[0, 1], &[0, 1, 2])],
        insts: vec![
            inst(0, Instruction::UnaryOp(Opcode::Neg), &[1], &[2]),
            inst(0, Instruction::BinaryOp(Opcode::Sub), &[2, 0], &[3]),
            inst(0, Instruction::Ret, &[3], &[]),
        ],
        values: vec![param(0, 0), param(0, 1), result(0), result(1)],
        globals: vec![],
    };
    let a = analysis(&f, &[None], &[0]);
    assert_eq!(
        lower(&f, &a),
        Ok(vec![vec![Op::Swap(1), Op::Unary(Opcode::Neg), Op::Binary(Opcode::Sub)]])
    );

    // v2 = neg v1; v3 = sub v0, v2; ret v3: the second operand is computed
    // first, and the first is then moved above it.
    let mut g = f.clone();
    g.insts[1].args = vec![0, 2];
    assert_eq!(
        lower(&g, &a),
        Ok(vec![vec![
            Op::Swap(1),
            Op::Unary(Opcode::Neg),
            Op::Swap(1),
            Op::Binary(Opcode::Sub)
        ]])
    );
}

#[test]
fn return_discards_what_is_left() {
    // Three parameters, of which the sum uses two: the third is below the
    // result and is dropped on return.
    let f = binary_then_ret(0, 1, &[0, 1, 2]);
    let a = analysis(&f, &[None], &[0]);
    assert_eq!(
        lower(&f, &a),
        Ok(vec![vec![Op::Binary(Opcode::Add), Op::Swap(1), Op::Drop]])
    );
}

#[test]
fn if_then_else_join() {
    // block0(x, y, a): c = is_odd a; cond_br c, block1(x), block2(y)
    // block1(p): ret p        block2(q): ret q
    let f = Function {
        id: 1,
        entry: 0,
        blocks: vec![block(&[0, 1, 2], &[0, 1]), block(&[4], &[2]), block(&[5], &[3])],
        insts: vec![
            inst(0, Instruction::Test(Opcode::IsOdd), &[2], &[3]),
            inst(
                0,
                Instruction::CondBr {
                    then_dest: 1,
                    then_args: vec![0],
                    else_dest: 2,
                    else_args: vec![1],
                },
                &[3],
                &[],
            ),
            inst(1, Instruction::Ret, &[4], &[]),
            inst(2, Instruction::Ret, &[5], &[]),
        ],
        values: vec![param(0, 0), param(0, 1), param(0, 2), result(0), param(1, 0), param(2, 0)],
        globals: vec![],
    };
    let a = analysis(&f, &[None, None, None], &[0, 0, 0]);
    let blocks = lower(&f, &a).unwrap();
    assert_eq!(blocks.len(), 3);
    // The fork is the last thing in the entry block, after the condition.
    // The values for the arms are brought up in their order, x above y, and
    // the condition is computed on top of them.
    assert_eq!(
        blocks[0],
        vec![Op::Swap(1), Op::Swap(1), Op::Movup(2), Op::Test(Opcode::IsOdd), Op::If(1, 2)]
    );
    // Each arm leaves its value alone on the stack.
    assert_eq!(blocks[1], vec![Op::Swap(1), Op::Drop]);
    assert_eq!(blocks[2], vec![Op::Drop]);
}

#[test]
fn do_while() {
    // block0 heads the loop and jumps to block1, which jumps back.
    let f = Function {
        id: 1,
        entry: 0,
        blocks: vec![block(&[], &[0]), block(&[], &[1])],
        insts: vec![
            inst(0, Instruction::Br { destination: 1, args: vec![] }, &[], &[]),
            inst(1, Instruction::Br { destination: 0, args: vec![] }, &[], &[]),
        ],
        values: vec![],
        globals: vec![],
    };
    let a = analysis(&f, &[Some(0), None], &[1, 1]);
    let blocks = lower(&f, &a).unwrap();
    assert_eq!(blocks.len(), 2);
    assert_eq!(blocks[0], vec![Op::Push(Felt::one()), Op::While(1)]);
    // The body ends with the condition for the next round, and holds no fork.
    assert_eq!(blocks[1], vec![Op::Push(Felt::one())]);
    assert!(blocks[1].iter().all(|op| !matches!(op, Op::If(_, _))));
}

#[test]
fn while_do() {
    // block0(n) heads the loop: c = is_odd n; cond_br c, block1, block2
    // block1: m = incr n; br block0(m)          block2: ret n
    let f = Function {
        id: 1,
        entry: 0,
        blocks: vec![block(&[0], &[0, 1]), block(&[], &[2, 3]), block(&[], &[4])],
        insts: vec![
            inst(0, Instruction::Test(Opcode::IsOdd), &[0], &[1]),
            inst(
                0,
                Instruction::CondBr {
                    then_dest: 1,
                    then_args: vec![],
                    else_dest: 2,
                    else_args: vec![],
                },
                &[1],
                &[],
            ),
            inst(1, Instruction::UnaryOp(Opcode::Incr), &[0], &[2]),
            inst(1, Instruction::Br { destination: 0, args: vec![2] }, &[], &[]),
            inst(2, Instruction::Ret, &[0], &[]),
        ],
        values: vec![param(0, 0), result(0), result(2)],
        globals: vec![],
    };
    let mut a = analysis(&f, &[Some(0), None, None], &[1, 1, 0]);
    {
        let liveness = a.liveness.as_mut().unwrap();
        // n is needed by both successors of the header.
        liveness.live_after_inst[1] = vec![0];
        liveness.live_at_block[1] = vec![0];
        liveness.live_at_block[2] = vec![0];
    }
    let blocks = lower(&f, &a).unwrap();
    assert_eq!(blocks.len(), 4);
    // The header copies n for the test, then enters the loop.
    assert_eq!(
        blocks[0],
        vec![Op::Dup(0), Op::Test(Opcode::IsOdd), Op::Push(Felt::one()), Op::While(3)]
    );
    // The body of the loop is the fork.
    assert_eq!(blocks[3], vec![Op::If(1, 2)]);
    // The arm that stays in the loop ends with the true condition.
    assert_eq!(
        blocks[1],
        vec![Op::Unary(Opcode::Incr), Op::Dup(0), Op::Test(Opcode::IsOdd), Op::Push(Felt::one())]
    );
    // The arm that leaves the loop ends with the false condition.
    assert_eq!(blocks[2], vec![Op::Push(Felt::zero())]);
}

#[test]
fn break_from_inner_loop_to_outside_outer_loop() {
    // block0 heads a loop at depth 0 as the analysis has it; block1 lies two
    // loops deep and jumps back to it.
    let f = Function {
        id: 1,
        entry: 0,
        blocks: vec![block(&[], &[0]), block(&[], &[1])],
        insts: vec![
            inst(0, Instruction::Br { destination: 1, args: vec![] }, &[], &[]),
            inst(1, Instruction::Br { destination: 0, args: vec![] }, &[], &[]),
        ],
        values: vec![],
        globals: vec![],
    };
    let a = analysis(&f, &[Some(0), None], &[0, 2]);
    let blocks = lower(&f, &a).unwrap();
    assert_eq!(
        blocks[1],
        vec![Op::Push(Felt::one()), Op::Push(Felt::zero()), Op::Push(Felt::zero())]
    );
}

#[test]
fn return_of_a_constant_from_a_loop() {
    // block0 heads a loop and jumps to block1, which returns 5 from one loop
    // deep.
    let f = Function {
        id: 1,
        entry: 0,
        blocks: vec![block(&[0], &[0]), block(&[], &[1])],
        insts: vec![
            inst(0, Instruction::Br { destination: 1, args: vec![] }, &[], &[]),
            inst(1, Instruction::RetImm(Immediate::U32(5)), &[], &[]),
        ],
        values: vec![param(0, 0)],
        globals: vec![],
    };
    let a = analysis(&f, &[Some(0), None], &[1, 1]);
    let blocks = lower(&f, &a).unwrap();
    // The parameter is dead at block1 and dropped before the loop is entered.
    assert_eq!(blocks[0], vec![Op::Drop, Op::Push(Felt::one()), Op::While(1)]);
    assert_eq!(blocks[1], vec![Op::PushU32(5), Op::Push(Felt::zero())]);
}

#[test]
fn missing_analysis_is_reported() {
    let f = binary_then_ret(0, 1, &[0, 1]);
    let mut a = analysis(&f, &[None], &[0]);
    a.liveness = None;
    assert_eq!(lower(&f, &a), Err(StackifyError::MissingAnalysis));
    assert_eq!(StackifyError::MissingAnalysis.kind(), ErrorKind::Prerequisite);
}

#[test]
fn malformed_function_is_reported() {
    let mut f = binary_then_ret(0, 1, &[0, 1]);
    f.insts[0].args[0] = 99;
    let a = analysis(&f, &[None], &[0]);
    assert_eq!(lower(&f, &a), Err(StackifyError::MalformedFunction));

    let mut f = binary_then_ret(0, 1, &[0, 1]);
    f.blocks[0].insts.clear();
    let a = analysis(&f, &[None], &[0]);
    assert_eq!(lower(&f, &a), Err(StackifyError::MalformedFunction));
}

#[test]
fn cycle_outside_a_loop_is_reported() {
    let f = Function {
        id: 1,
        entry: 0,
        blocks: vec![block(&[], &[0]), block(&[], &[1])],
        insts: vec![
            inst(0, Instruction::Br { destination: 1, args: vec![] }, &[], &[]),
            inst(1, Instruction::Br { destination: 0, args: vec![] }, &[], &[]),
        ],
        values: vec![],
        globals: vec![],
    };
    let a = analysis(&f, &[None, None], &[0, 0]);
    assert_eq!(lower(&f, &a), Err(StackifyError::UnexpectedCycle));
    assert_eq!(StackifyError::UnexpectedCycle.kind(), ErrorKind::Prerequisite);
}

#[test]
fn switch_is_reported() {
    let f = Function {
        id: 1,
        entry: 0,
        blocks: vec![block(&[0], &[0])],
        insts: vec![inst(0, Instruction::Switch { arms: vec![(1, 0)], default: 0 }, &[0], &[])],
        values: vec![param(0, 0)],
        globals: vec![],
    };
    let a = analysis(&f, &[None], &[0]);
    assert_eq!(lower(&f, &a), Err(StackifyError::UnexpectedSwitch));
    assert_eq!(StackifyError::UnexpectedSwitch.kind(), ErrorKind::Invariant);
}

#[test]
fn use_before_definition_is_reported() {
    // v1 = neg v2; v2 = neg v0; ret v1
    let f = Function {
        id: 1,
        entry: 0,
        blocks: vec![block(&[0], &[0, 1, 2])],
        insts: vec![
            inst(0, Instruction::UnaryOp(Opcode::Neg), &[2], &[1]),
            inst(0, Instruction::UnaryOp(Opcode::Neg), &[0], &[2]),
            inst(0, Instruction::Ret, &[1], &[]),
        ],
        values: vec![param(0, 0), result(0), result(1)],
        globals: vec![],
    };
    let a = analysis(&f, &[None], &[0]);
    assert_eq!(lower(&f, &a), Err(StackifyError::CyclicDependencies));
    assert_eq!(StackifyError::CyclicDependencies.kind(), ErrorKind::Invariant);
}

#[test]
fn a_fork_without_a_condition_is_reported() {
    let f = Function {
        id: 1,
        entry: 0,
        blocks: vec![block(&[], &[0]), block(&[], &[1]), block(&[], &[2])],
        insts: vec![
            inst(
                0,
                Instruction::CondBr {
                    then_dest: 1,
                    then_args: vec![],
                    else_dest: 2,
                    else_args: vec![],
                },
                &[],
                &[],
            ),
            inst(1, Instruction::RetImm(Immediate::U32(1)), &[], &[]),
            inst(2, Instruction::RetImm(Immediate::U32(2)), &[], &[]),
        ],
        values: vec![],
        globals: vec![],
    };
    let a = analysis(&f, &[None, None, None], &[0, 0, 0]);
    assert_eq!(lower(&f, &a), Err(StackifyError::UnexpectedStackState));
}

#[test]
fn a_conditional_with_constant_arms() {
    // block0(c): cond_br c, block1, block2; each arm returns a constant.
    let f = Function {
        id: 1,
        entry: 0,
        blocks: vec![block(&[0], &[0]), block(&[], &[1]), block(&[], &[2])],
        insts: vec![
            inst(
                0,
                Instruction::CondBr {
                    then_dest: 1,
                    then_args: vec![],
                    else_dest: 2,
                    else_args: vec![],
                },
                &[0],
                &[],
            ),
            inst(1, Instruction::RetImm(Immediate::U32(1)), &[], &[]),
            inst(2, Instruction::RetImm(Immediate::I1(false)), &[], &[]),
        ],
        values: vec![param(0, 0)],
        globals: vec![],
    };
    let a = analysis(&f, &[None, None, None], &[0, 0, 0]);
    assert_eq!(
        lower(&f, &a),
        Ok(vec![vec![Op::If(1, 2)], vec![Op::PushU32(1)], vec![Op::PushU8(0)]])
    );
}

#[test]
fn signed_immediate_is_reported() {
    let f = Function {
        id: 1,
        entry: 0,
        blocks: vec![block(&[], &[0])],
        insts: vec![inst(0, Instruction::RetImm(Immediate::I32(-1)), &[], &[])],
        values: vec![],
        globals: vec![],
    };
    let a = analysis(&f, &[None], &[0]);
    assert_eq!(lower(&f, &a), Err(StackifyError::UnsupportedImmediate));
    assert_eq!(StackifyError::UnsupportedImmediate.kind(), ErrorKind::Unimplemented);

    let mut g = f.clone();
    g.insts[0].ix = Instruction::RetImm(Immediate::F64(0x3FF0_0000_0000_0000));
    assert_eq!(lower(&g, &a), Err(StackifyError::UnsupportedImmediate));
}

#[test]
fn a_value_read_by_two_trees_is_computed_before_them() {
    // v1 = neg v0; v2 = incr v1; v3 = add v2, v1; ret v3
    // v1 is read twice, so it heads a tree of its own, which is lowered
    // first. The sum reads a copy of it, the increment takes it.
    let f = Function {
        id: 1,
        entry: 0,
        blocks: vec![block(&[0], &[0, 1, 2, 3])],
        insts: vec![
            inst(0, Instruction::UnaryOp(Opcode::Neg), &[0], &[1]),
            inst(0, Instruction::UnaryOp(Opcode::Incr), &[1], &[2]),
            inst(0, Instruction::BinaryOp(Opcode::Add), &[2, 1], &[3]),
            inst(0, Instruction::Ret, &[3], &[]),
        ],
        values: vec![param(0, 0), result(0), result(1), result(2)],
        globals: vec![],
    };
    let a = analysis(&f, &[None], &[0]);
    assert_eq!(
        lower(&f, &a),
        Ok(vec![vec![
            Op::Unary(Opcode::Neg),
            Op::Dup(0),
            Op::Unary(Opcode::Incr),
            Op::Binary(Opcode::Add)
        ]])
    );
}

#[test]
fn a_value_that_a_later_tree_reads_is_copied() {
    // v1 = neg v0; assert v1; ret v1: the assertion reads a copy, because
    // the return, which is lowered after it, reads the value too.
    let f = Function {
        id: 1,
        entry: 0,
        blocks: vec![block(&[0], &[0, 1, 2])],
        insts: vec![
            inst(0, Instruction::UnaryOp(Opcode::Neg), &[0], &[1]),
            inst(0, Instruction::PrimOp(Opcode::Assert), &[1], &[]),
            inst(0, Instruction::Ret, &[1], &[]),
        ],
        values: vec![param(0, 0), result(0)],
        globals: vec![],
    };
    let a = analysis(&f, &[None], &[0]);
    assert_eq!(
        lower(&f, &a),
        Ok(vec![vec![
            Op::Unary(Opcode::Neg),
            Op::Dup(0),
            Op::Prim { opcode: Opcode::Assert, inputs: 1, outputs: 0 }
        ]])
    );
}

#[test]
fn a_computation_that_would_take_a_wrong_operand_is_refused() {
    // v3 = add v2, v1; ret v3, entered with v0 on top of v1 and v2. The sum
    // takes its operands in either order, so v1, one below the top, is left
    // where it is; v2 then comes to lie on top of v0, which is no operand.
    let f = Function {
        id: 1,
        entry: 0,
        blocks: vec![block(&[0, 1, 2], &[0, 1])],
        insts: vec![
            inst(0, Instruction::BinaryOp(Opcode::Add), &[2, 1], &[3]),
            inst(0, Instruction::Ret, &[3], &[]),
        ],
        values: vec![param(0, 0), param(0, 1), param(0, 2), result(0)],
        globals: vec![],
    };
    let a = analysis(&f, &[None], &[0]);
    assert_eq!(lower(&f, &a), Err(StackifyError::UnexpectedStackState));

    // With an operator to which the order matters every operand is brought
    // to the top.
    let mut g = f.clone();
    g.insts[0].ix = Instruction::BinaryOp(Opcode::Sub);
    assert_eq!(
        lower(&g, &a),
        Ok(vec![vec![
            Op::Swap(1),
            Op::Movup(2),
            Op::Binary(Opcode::Sub),
            Op::Swap(1),
            Op::Drop
        ]])
    );
}

#[test]
fn an_effect_is_lowered_before_the_return_that_follows_it() {
    // assert v0; ret 5: two trees, the one of the return last.
    let f = Function {
        id: 1,
        entry: 0,
        blocks: vec![block(&[0], &[0, 1])],
        insts: vec![
            inst(0, Instruction::PrimOp(Opcode::Assert), &[0], &[]),
            inst(0, Instruction::RetImm(Immediate::U32(5)), &[], &[]),
        ],
        values: vec![param(0, 0)],
        globals: vec![],
    };
    let a = analysis(&f, &[None], &[0]);
    assert_eq!(
        lower(&f, &a),
        Ok(vec![vec![
            Op::Prim { opcode: Opcode::Assert, inputs: 1, outputs: 0 },
            Op::PushU32(5)
        ]])
    );
}

#[test]
fn a_value_that_is_not_on_the_stack_is_reported() {
    // ret v1, where v1 is the parameter of a block that is never entered.
    let f = Function {
        id: 1,
        entry: 0,
        blocks: vec![block(&[0], &[0]), block(&[1], &[1])],
        insts: vec![inst(0, Instruction::Ret, &[1], &[]), inst(1, Instruction::Ret, &[1], &[])],
        values: vec![param(0, 0), param(1, 0)],
        globals: vec![],
    };
    let a = analysis(&f, &[None, None], &[0, 0]);
    assert_eq!(lower(&f, &a), Err(StackifyError::ValueNotFound(1)));
    assert_eq!(StackifyError::ValueNotFound(1).kind(), ErrorKind::Invariant);
}

#[test]
fn global_value_address() {
    // v0 = global_value (symbol 9 + 4) + 8; ret v0
    let f = Function {
        id: 1,
        entry: 0,
        blocks: vec![block(&[], &[0, 1])],
        insts: vec![
            inst(0, Instruction::GlobalValue(1), &[], &[0]),
            inst(0, Instruction::Ret, &[0], &[]),
        ],
        values: vec![result(0)],
        globals: vec![
            GlobalValueData::Symbol { name: 9, offset: 4 },
            GlobalValueData::IAddImm { base: 0, offset: 8 },
        ],
    };
    let a = analysis(&f, &[None], &[0]);
    let program = Program {
        next_available_offset: 1000,
        globals: vec![
            GlobalVariable { name: 3, offset: 0 },
            GlobalVariable { name: 9, offset: 64 },
        ],
    };
    let mut pass = Stackify::new(&program, &a);
    let lowered = pass.run(&f).unwrap();
    assert_eq!(lowered.blocks[0].ops, vec![Op::PushU32(1000 + 64 + 4 + 8)]);

    // A load of one field element reads from the address.
    let mut g = f.clone();
    g.globals[1] = GlobalValueData::Load { base: 0, offset: -4, felts: 1 };
    let lowered = pass.run(&g).unwrap();
    assert_eq!(lowered.blocks[0].ops, vec![Op::MemLoadImm(1000 + 64)]);

    // A load of more is not supported.
    g.globals[1] = GlobalValueData::Load { base: 0, offset: 0, felts: 2 };
    assert_eq!(pass.run(&g), Err(StackifyError::UnsupportedLoad));

    // A symbol that the program lacks is the linker's failure.
    g.globals[0] = GlobalValueData::Symbol { name: 77, offset: 0 };
    g.globals[1] = GlobalValueData::IAddImm { base: 0, offset: 0 };
    assert_eq!(pass.run(&g), Err(StackifyError::UndefinedGlobal(77)));
    assert_eq!(StackifyError::UndefinedGlobal(77).kind(), ErrorKind::Linker);

    // An address below zero is none.
    g.globals[0] = GlobalValueData::Symbol { name: 3, offset: -2000 };
    assert_eq!(pass.run(&g), Err(StackifyError::AddressOutOfRange));
}

/// Whether every path through the block `b` of `blocks` ends with a push of
/// a loop condition.
fn ends_every_path_with_a_condition(blocks: &[Vec<Op>], b: usize) -> bool {
    match blocks[b].last() {
        Some(Op::Push(felt)) => *felt == Felt::one() || *felt == Felt::zero(),
        Some(Op::If(t, e)) => {
            ends_every_path_with_a_condition(blocks, *t as usize)
                && ends_every_path_with_a_condition(blocks, *e as usize)
        }
        Some(Op::While(body)) => ends_every_path_with_a_condition(blocks, *body as usize),
        _ => false,
    }
}

#[test]
fn every_path_through_a_loop_body_ends_with_a_condition() {
    // block0(n): br block1(n)
    // block1(i) heads the loop: c = is_odd i; cond_br c, block2, block3
    // block2: j = incr i; br block1(j)          block3: ret i
    let f = Function {
        id: 1,
        entry: 0,
        blocks: vec![block(&[0], &[0]), block(&[1], &[1, 2]), block(&[], &[3, 4]), block(&[], &[5])],
        insts: vec![
            inst(0, Instruction::Br { destination: 1, args: vec![0] }, &[], &[]),
            inst(1, Instruction::Test(Opcode::IsOdd), &[1], &[2]),
            inst(
                1,
                Instruction::CondBr {
                    then_dest: 2,
                    then_args: vec![],
                    else_dest: 3,
                    else_args: vec![],
                },
                &[2],
                &[],
            ),
            inst(2, Instruction::UnaryOp(Opcode::Incr), &[1], &[3]),
            inst(2, Instruction::Br { destination: 1, args: vec![3] }, &[], &[]),
            inst(3, Instruction::Ret, &[1], &[]),
        ],
        values: vec![param(0, 0), param(1, 0), result(1), result(3)],
        globals: vec![],
    };
    let mut a = analysis(&f, &[None, Some(0), None, None], &[0, 1, 1, 0]);
    {
        let live = a.liveness.as_mut().unwrap();
        live.live_at_block[2] = vec![1];
        live.live_at_block[3] = vec![1];
        live.live_after_inst[1] = vec![1, 2];
        live.live_after_inst[2] = vec![1];
        live.live_after_block[1] = vec![1];
        live.live_after_inst[3] = vec![3];
    }
    let blocks = lower(&f, &a).unwrap();
    assert_eq!(
        blocks,
        vec![
            vec![Op::Dup(0), Op::Test(Opcode::IsOdd), Op::Push(Felt::one()), Op::While(3)],
            vec![
                Op::Unary(Opcode::Incr),
                Op::Dup(0),
                Op::Test(Opcode::IsOdd),
                Op::Push(Felt::one())
            ],
            vec![Op::Push(Felt::zero())],
            vec![Op::If(1, 2)],
        ]
    );
    for block in &blocks {
        for op in block {
            if let Op::While(body) = op {
                assert!(ends_every_path_with_a_condition(&blocks, *body as usize));
            }
        }
    }
}
