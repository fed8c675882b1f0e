use stackify::analysis::{contains_value, FunctionAnalysis, LivenessAnalysis, LoopAnalysis};
use stackify::emitter::{check_join_state, rename_parameters};
use stackify::globals::calculate_global_value_addr;
use stackify::error::{ErrorKind, StackifyError};
use stackify::hir::{
    BlockData, Function, GlobalValueData, GlobalVariable, Immediate, InstData, Instruction,
    Program, ProgramPoint, ValueData,
};
use stackify::masm::{Function as MasmFunction, Op, Opcode};
use stackify::operand_stack::{Operand, OperandStack};
use stackify::oracle::fetch_operand;
use stackify::pass::{entry_operands, Stackify};

fn v(value: u32) -> Operand {
    Operand::Value(value)
}

fn stack_of(values: &[u32]) -> OperandStack {
    let mut stack = OperandStack::new();
    for value in values.iter().rev() {
        stack.push(v(*value));
    }
    stack
}

#[test]
fn liveness_is_read_from_the_tables() {
    let live = LivenessAnalysis {
        live_at_block: vec![vec![1], vec![]],
        live_after_block: vec![vec![], vec![2]],
        live_at_inst: vec![vec![3]],
        live_after_inst: vec![vec![4, 5]],
    };
    assert!(live.is_live_at(1, ProgramPoint::Block(0)));
    assert!(!live.is_live_at(1, ProgramPoint::Block(1)));
    assert!(!live.is_live_at(1, ProgramPoint::Block(7)));
    assert!(live.is_live_after(2, ProgramPoint::Block(1)));
    assert!(live.is_live_at(3, ProgramPoint::Inst(0)));
    assert!(live.is_live_after(5, ProgramPoint::Inst(0)));
    assert!(!live.is_live_after(3, ProgramPoint::Inst(0)));
    assert!(!live.is_live_after(5, ProgramPoint::Inst(1)));
    assert!(contains_value(&[1, 2, 3], 3));
    assert!(!contains_value(&[], 3));
}

#[test]
fn loops_are_read_from_the_tables() {
    let loops = LoopAnalysis { headers: vec![None, Some(4)], levels: vec![0, 2] };
    assert_eq!(loops.is_loop_header(0), None);
    assert_eq!(loops.is_loop_header(1), Some(4));
    assert_eq!(loops.is_loop_header(2), None);
    assert_eq!(loops.loop_level(1), 2);
    assert_eq!(loops.loop_level(9), 0);
}

#[test]
fn all_analyses_are_required() {
    let loops = LoopAnalysis { headers: vec![], levels: vec![] };
    let live = LivenessAnalysis {
        live_at_block: vec![],
        live_after_block: vec![],
        live_at_inst: vec![],
        live_after_inst: vec![],
    };
    let all = FunctionAnalysis { loops: Some(loops.clone()), liveness: Some(live.clone()) };
    assert_eq!(all.require_all(), Ok(()));
    assert_eq!(all.loops(), &loops);
    assert_eq!(all.liveness(), &live);
    let some = FunctionAnalysis { loops: None, liveness: Some(live) };
    assert_eq!(some.require_all(), Err(StackifyError::MissingAnalysis));
    let none = FunctionAnalysis { loops: Some(loops), liveness: None };
    assert_eq!(none.require_all(), Err(StackifyError::MissingAnalysis));
}

#[test]
fn every_error_has_its_kind() {
    let kinds = [
        (StackifyError::MissingAnalysis, ErrorKind::Prerequisite),
        (StackifyError::MalformedFunction, ErrorKind::Prerequisite),
        (StackifyError::UnexpectedCycle, ErrorKind::Prerequisite),
        (StackifyError::ValueNotFound(1), ErrorKind::Invariant),
        (StackifyError::UnexpectedStackState, ErrorKind::Invariant),
        (StackifyError::JoinMismatch, ErrorKind::Invariant),
        (StackifyError::CyclicDependencies, ErrorKind::Invariant),
        (StackifyError::UnexpectedSwitch, ErrorKind::Invariant),
        (StackifyError::LimitExceeded, ErrorKind::Invariant),
        (StackifyError::UnsupportedImmediate, ErrorKind::Unimplemented),
        (StackifyError::UnsupportedLoad, ErrorKind::Unimplemented),
        (StackifyError::UnsupportedReturn, ErrorKind::Unimplemented),
        (StackifyError::UndefinedGlobal(2), ErrorKind::Linker),
        (StackifyError::AddressOutOfRange, ErrorKind::Linker),
    ];
    for (error, kind) in kinds {
        assert_eq!(error.kind(), kind);
    }
}

#[test]
fn the_first_global_of_a_name_is_found() {
    let program = Program {
        next_available_offset: 16,
        globals: vec![
            GlobalVariable { name: 1, offset: 0 },
            GlobalVariable { name: 2, offset: 8 },
            GlobalVariable { name: 1, offset: 12 },
        ],
    };
    assert_eq!(program.find(1), Some(0));
    assert_eq!(program.find(2), Some(1));
    assert_eq!(program.find(3), None);
    assert_eq!(program.offset_of(2), 12);
}

fn with_globals(globals: Vec<GlobalValueData>) -> Function {
    Function {
        id: 0,
        entry: 0,
        blocks: vec![BlockData { params: vec![], insts: vec![0] }],
        insts: vec![InstData {
            block: 0,
            ix: Instruction::RetImm(Immediate::U32(0)),
            args: vec![],
            results: vec![],
        }],
        values: vec![],
        globals,
    }
}

#[test]
fn addresses_add_up_along_the_layers() {
    let program = Program {
        next_available_offset: 100,
        globals: vec![GlobalVariable { name: 5, offset: 20 }],
    };
    let f = with_globals(vec![
        GlobalValueData::Symbol { name: 5, offset: 1 },
        GlobalValueData::IAddImm { base: 0, offset: -3 },
        GlobalValueData::Load { base: 1, offset: 10, felts: 1 },
    ]);
    assert!(f.validate());
    assert_eq!(calculate_global_value_addr(&program, &f, 0), Ok(121));
    assert_eq!(calculate_global_value_addr(&program, &f, 1), Ok(118));
    assert_eq!(calculate_global_value_addr(&program, &f, 2), Ok(128));

    let far = with_globals(vec![
        GlobalValueData::Symbol { name: 5, offset: i32::MAX },
        GlobalValueData::IAddImm { base: 0, offset: i32::MAX - 120 },
        GlobalValueData::IAddImm { base: 1, offset: 2 },
    ]);
    assert_eq!(calculate_global_value_addr(&program, &far, 0), Ok(2_147_483_767));
    assert_eq!(calculate_global_value_addr(&program, &far, 1), Ok(u32::MAX - 1));
    assert_eq!(
        calculate_global_value_addr(&program, &far, 2),
        Err(StackifyError::AddressOutOfRange)
    );
    let missing = with_globals(vec![GlobalValueData::Symbol { name: 6, offset: 0 }]);
    assert_eq!(
        calculate_global_value_addr(&program, &missing, 0),
        Err(StackifyError::UndefinedGlobal(6))
    );
}

#[test]
fn a_global_value_has_to_build_on_an_earlier_one() {
    let f = with_globals(vec![GlobalValueData::IAddImm { base: 0, offset: 0 }]);
    assert!(!f.validate());
    let f = with_globals(vec![
        GlobalValueData::Load { base: 1, offset: 0, felts: 1 },
        GlobalValueData::Symbol { name: 0, offset: 0 },
    ]);
    assert!(!f.validate());
}

#[test]
fn what_a_function_names_has_to_exist() {
    let sound = with_globals(vec![]);
    assert!(sound.validate());

    let mut f = sound.clone();
    f.entry = 1;
    assert!(!f.validate());

    let mut f = sound.clone();
    f.blocks[0].insts = vec![3];
    assert!(!f.validate());

    let mut f = sound.clone();
    f.blocks[0].params = vec![0];
    assert!(!f.validate());

    let mut f = sound.clone();
    f.insts[0].block = 2;
    assert!(!f.validate());

    let mut f = sound.clone();
    f.insts[0].results = vec![0];
    assert!(!f.validate());

    let mut f = sound.clone();
    f.insts[0].ix = Instruction::Br { destination: 4, args: vec![] };
    assert!(!f.validate());

    let mut f = sound.clone();
    f.insts[0].ix = Instruction::CondBr {
        then_dest: 0,
        then_args: vec![],
        else_dest: 0,
        else_args: vec![9],
    };
    assert!(!f.validate());

    let mut f = sound.clone();
    f.insts[0].ix = Instruction::Switch { arms: vec![(0, 0), (1, 5)], default: 0 };
    assert!(!f.validate());

    let mut f = sound.clone();
    f.insts[0].ix = Instruction::GlobalValue(0);
    assert!(!f.validate());

    let mut f = sound.clone();
    f.values = vec![ValueData::Inst { inst: 1, index: 0 }];
    assert!(!f.validate());

    let mut f = sound.clone();
    f.values = vec![ValueData::Param { block: 1, index: 0 }];
    assert!(!f.validate());

    // An instruction that sits in another block than it says.
    let mut f = sound.clone();
    f.blocks.push(BlockData { params: vec![], insts: vec![0] });
    assert!(!f.validate());
}

#[test]
fn flags_of_instructions() {
    assert!(Instruction::Ret.is_terminator());
    assert!(Instruction::Switch { arms: vec![], default: 0 }.is_terminator());
    assert!(!Instruction::Load.is_terminator());
    assert!(Instruction::Call(0).has_side_effects());
    assert!(Instruction::MemCpy.has_side_effects());
    assert!(Instruction::PrimOp(Opcode::Store).has_side_effects());
    assert!(!Instruction::PrimOp(Opcode::Select).has_side_effects());
    assert!(!Instruction::BinaryOp(Opcode::Add).has_side_effects());
    assert!(Instruction::BinaryOp(Opcode::Add).is_binary());
    assert!(!Instruction::BinaryOpImm(Opcode::Add, Immediate::U8(1)).is_binary());
    assert!(Instruction::BinaryOp(Opcode::Mul).is_commutative());
    assert!(!Instruction::BinaryOp(Opcode::Sub).is_commutative());
    assert!(!Instruction::UnaryOp(Opcode::Neg).is_commutative());
    let branch = InstData {
        block: 0,
        ix: Instruction::CondBr { then_dest: 1, then_args: vec![4], else_dest: 2, else_args: vec![5, 6] },
        args: vec![3],
        results: vec![],
    };
    assert_eq!(branch.used_values(), vec![3, 4, 5, 6]);
}

#[test]
fn a_function_starts_with_its_parameters_on_the_stack() {
    let mut f = with_globals(vec![]);
    f.blocks[0].params = vec![0, 1, 2];
    f.values = vec![
        ValueData::Param { block: 0, index: 0 },
        ValueData::Param { block: 0, index: 1 },
        ValueData::Param { block: 0, index: 2 },
    ];
    assert!(f.validate());
    assert_eq!(entry_operands(&f).operands(), vec![v(0), v(1), v(2)]);
}

#[test]
fn fetching_moves_or_copies() {
    let mut stack = stack_of(&[1, 2, 3]);
    let mut block = stackify::masm::Block::new();
    assert_eq!(fetch_operand(3, 0, true, false, &mut stack, &mut block), Ok(()));
    assert_eq!(block.ops, vec![Op::Movup(2)]);
    assert_eq!(stack.operands(), vec![v(3), v(1), v(2)]);
    assert_eq!(fetch_operand(2, 0, false, false, &mut stack, &mut block), Ok(()));
    assert_eq!(block.ops, vec![Op::Movup(2), Op::Dup(2)]);
    assert_eq!(stack.operands(), vec![v(2), v(3), v(1), v(2)]);
    assert_eq!(
        fetch_operand(9, 0, true, false, &mut stack, &mut block),
        Err(StackifyError::ValueNotFound(9))
    );
    assert_eq!(
        fetch_operand(1, 4, true, false, &mut stack, &mut block),
        Err(StackifyError::LimitExceeded)
    );
    assert_eq!(fetch_operand(1, 4, false, false, &mut stack, &mut block), Ok(()));
    assert_eq!(stack.operands(), vec![v(2), v(3), v(1), v(2), v(1)]);
}

#[test]
fn fetching_what_is_in_place_does_nothing_at_any_depth() {
    let deep: Vec<u32> = (0..20).collect();
    let mut stack = stack_of(&deep);
    let mut block = stackify::masm::Block::new();
    // A move to where the value is.
    assert_eq!(fetch_operand(17, 17, true, false, &mut stack, &mut block), Ok(()));
    assert_eq!(block.ops, vec![]);
    // A move from there, or a copy, is out of reach.
    assert_eq!(
        fetch_operand(17, 0, true, false, &mut stack, &mut block),
        Err(StackifyError::LimitExceeded)
    );
    assert_eq!(
        fetch_operand(17, 17, false, false, &mut stack, &mut block),
        Err(StackifyError::LimitExceeded)
    );
    assert_eq!(block.ops, vec![]);
}

#[test]
fn a_block_has_to_be_entered_with_the_same_operands() {
    let stack = stack_of(&[1, 2]);
    assert_eq!(check_join_state(&vec![v(1), v(2)], &stack), Ok(()));
    assert_eq!(check_join_state(&vec![v(2), v(1)], &stack), Err(StackifyError::JoinMismatch));
    assert_eq!(check_join_state(&vec![v(1)], &stack), Err(StackifyError::JoinMismatch));
    let mut renamed = stack_of(&[7, 2]);
    renamed.rename(0, 1);
    assert_eq!(check_join_state(&vec![v(1), v(2)], &renamed), Ok(()));
}

#[test]
fn parameters_give_their_names_to_the_top_of_the_stack() {
    let mut stack = stack_of(&[1, 2, 3]);
    assert_eq!(rename_parameters(&[10, 20], &mut stack), Ok(()));
    assert_eq!(stack.operands(), vec![v(10), v(20), v(3)]);
    assert_eq!(stack.find(1), Some(0));
    assert_eq!(stack.find(2), Some(1));
    assert_eq!(
        rename_parameters(&[1, 2, 3, 4], &mut stack),
        Err(StackifyError::UnexpectedStackState)
    );
}

#[test]
fn a_new_function_has_an_empty_body() {
    let mut f = MasmFunction::new(3);
    assert_eq!(f.id, 3);
    assert_eq!(f.body, 0);
    assert_eq!(f.blocks.len(), 1);
    assert_eq!(f.create_block(), 1);
    f.push_op(1, Op::Drop);
    f.push_op(0, Op::While(1));
    assert_eq!(f.blocks[0].ops, vec![Op::While(1)]);
    assert_eq!(f.blocks[1].ops, vec![Op::Drop]);
    assert_eq!(f.blocks[1].len(), 1);
}

#[test]
fn join_mismatch_is_reported() {
    // block0(v0): br block1(v0)
    // block1(v1) heads a loop: br block2
    // block2: v2 = incr v1; br block1(v2)
    // The analysis has v1 live at the header, so that a copy of it comes
    // back along with v2.
    let branch = |block: u32, destination: u32, args: Vec<u32>| InstData {
        block,
        ix: Instruction::Br { destination, args },
        args: vec![],
        results: vec![],
    };
    let f = Function {
        id: 0,
        entry: 0,
        blocks: vec![
            BlockData { params: vec![0], insts: vec![0] },
            BlockData { params: vec![1], insts: vec![1] },
            BlockData { params: vec![], insts: vec![2, 3] },
        ],
        insts: vec![
            branch(0, 1, vec![0]),
            branch(1, 2, vec![]),
            InstData {
                block: 2,
                ix: Instruction::UnaryOp(Opcode::Incr),
                args: vec![1],
                results: vec![2],
            },
            branch(2, 1, vec![2]),
        ],
        values: vec![
            ValueData::Param { block: 0, index: 0 },
            ValueData::Param { block: 1, index: 0 },
            ValueData::Inst { inst: 2, index: 0 },
        ],
        globals: vec![],
    };
    let analysis = FunctionAnalysis {
        loops: Some(LoopAnalysis { headers: vec![None, Some(0), None], levels: vec![0, 1, 1] }),
        liveness: Some(LivenessAnalysis {
            live_at_block: vec![vec![], vec![1], vec![1]],
            live_after_block: vec![vec![], vec![], vec![]],
            live_at_inst: vec![vec![]; 4],
            live_after_inst: vec![vec![], vec![], vec![], vec![1]],
        }),
    };
    let program = Program { next_available_offset: 0, globals: vec![] };
    let mut pass = Stackify::new(&program, &analysis);
    assert_eq!(pass.run(&f), Err(StackifyError::JoinMismatch));

    // With v1 dead at the header the loop closes.
    let mut sound = analysis.clone();
    sound.liveness.as_mut().unwrap().live_at_block[1] = vec![];
    sound.liveness.as_mut().unwrap().live_after_inst[3] = vec![];
    let mut pass = Stackify::new(&program, &sound);
    let lowered = pass.run(&f).unwrap();
    assert_eq!(lowered.blocks.len(), 2);
    assert_eq!(
        lowered.blocks[0].ops,
        vec![Op::Push(stackify::masm::Felt::one()), Op::While(1)]
    );
    assert_eq!(
        lowered.blocks[1].ops,
        vec![Op::Unary(Opcode::Incr), Op::Push(stackify::masm::Felt::one())]
    );
}

#[test]
fn a_return_of_no_value_is_reported() {
    let mut f = with_globals(vec![]);
    f.insts[0].ix = Instruction::Ret;
    let analysis = FunctionAnalysis {
        loops: Some(LoopAnalysis { headers: vec![None], levels: vec![0] }),
        liveness: Some(LivenessAnalysis {
            live_at_block: vec![vec![]],
            live_after_block: vec![vec![]],
            live_at_inst: vec![vec![]],
            live_after_inst: vec![vec![]],
        }),
    };
    let program = Program { next_available_offset: 0, globals: vec![] };
    let mut pass = Stackify::new(&program, &analysis);
    assert_eq!(pass.run(&f), Err(StackifyError::UnsupportedReturn));
}
