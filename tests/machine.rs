use regvm::machine::{DEFAULT_STEP_LIMIT, GPR_COUNT, MAX_STACKSIZE};
use regvm::{ControlRegister, Fault, Instruction, OutputEvent, Status, VM};

#[test]
fn load_output_halt() {
    let mut vm = VM::new(vec![Instruction::MOVI(100, 0), Instruction::OUTPUT(0), Instruction::HALT()]);
    assert_eq!(vm.execute(), Status::Halted);
    assert_eq!(vm.outputs(), &vec![OutputEvent { register_index: 0, value: 100 }]);
    assert_eq!(vm.read_gpr(0), Ok(100));
}

#[test]
fn jump_past_end_faults() {
    let mut vm = VM::new(vec![Instruction::JMP(5)]);
    assert_eq!(vm.execute(), Status::Faulted(Fault::InstructionPointerOutOfBounds));
    assert_eq!(vm.read_control(ControlRegister::InstructionPointer), 5);
    assert!(vm.outputs().is_empty());
}

#[test]
fn push_then_pop_moves_value() {
    let mut vm = VM::new(vec![Instruction::PUSH(0), Instruction::POP(1), Instruction::HALT()]);
    assert_eq!(vm.write_gpr(0, 7), Ok(()));
    assert_eq!(vm.execute(), Status::Halted);
    assert_eq!(vm.read_gpr(1), Ok(7));
    assert_eq!(vm.read_gpr(0), Ok(7));
    assert_eq!(vm.read_control(ControlRegister::StackPointer), 0);
    assert_eq!(vm.read_control(ControlRegister::InstructionPointer), 2);
}

#[test]
fn same_program_runs_identically() {
    let program = vec![
        Instruction::MOVI(3, 0),
        Instruction::MOV(0, 1),
        Instruction::OUTPUT(1),
        Instruction::PUSH(1),
        Instruction::OUTPUT(0),
        Instruction::HALT(),
    ];
    let mut a = VM::new(program.clone());
    let mut b = VM::new(program);
    let ra = a.execute();
    let rb = b.execute();
    assert_eq!(ra, Status::Halted);
    assert_eq!(ra, rb);
    assert_eq!(a.outputs(), b.outputs());
    assert_eq!(
        a.outputs(),
        &vec![
            OutputEvent { register_index: 1, value: 3 },
            OutputEvent { register_index: 0, value: 3 },
        ]
    );
}

#[test]
fn stack_is_last_in_first_out() {
    let mut vm = VM::new(vec![]);
    for v in [10u64, 20, 30, 40] {
        assert_eq!(vm.stack_push(v), Ok(()));
    }
    assert_eq!(vm.read_control(ControlRegister::StackPointer), 4);
    let mut popped = Vec::new();
    for _ in 0..4 {
        popped.push(vm.stack_pop().unwrap());
    }
    assert_eq!(popped, vec![40, 30, 20, 10]);
    assert_eq!(vm.read_control(ControlRegister::StackPointer), 0);
}

#[test]
fn push_on_full_stack_overflows() {
    let mut vm = VM::new(vec![]);
    for v in 0..MAX_STACKSIZE as u64 {
        assert_eq!(vm.stack_push(v), Ok(()));
    }
    assert_eq!(vm.stack_push(999), Err(Fault::StackOverflow));
    assert_eq!(vm.read_control(ControlRegister::StackPointer), MAX_STACKSIZE as u64);
    assert_eq!(vm.stack_pop(), Ok(MAX_STACKSIZE as u64 - 1));
}

#[test]
fn pop_on_empty_stack_underflows() {
    let mut vm = VM::new(vec![]);
    assert_eq!(vm.stack_pop(), Err(Fault::StackUnderflow));
    assert_eq!(vm.read_control(ControlRegister::StackPointer), 0);
}

#[test]
fn program_pop_on_empty_stack_faults_without_change() {
    let mut vm = VM::new(vec![Instruction::MOVI(5, 2), Instruction::POP(2), Instruction::HALT()]);
    assert_eq!(vm.execute(), Status::Faulted(Fault::StackUnderflow));
    assert_eq!(vm.read_gpr(2), Ok(5));
    assert_eq!(vm.read_control(ControlRegister::InstructionPointer), 1);
    assert_eq!(vm.read_control(ControlRegister::StackPointer), 0);
}

#[test]
fn program_push_loop_overflows() {
    let mut vm = VM::new(vec![Instruction::PUSH(0), Instruction::JMP(0)]);
    assert_eq!(vm.execute(), Status::Faulted(Fault::StackOverflow));
    assert_eq!(vm.read_control(ControlRegister::StackPointer), MAX_STACKSIZE as u64);
    assert_eq!(vm.read_control(ControlRegister::InstructionPointer), 0);
}

#[test]
fn gpr_zero_is_not_instruction_pointer() {
    let mut vm = VM::new(vec![Instruction::HALT()]);
    assert_eq!(vm.write_gpr(0, 99), Ok(()));
    assert_eq!(vm.read_control(ControlRegister::InstructionPointer), 0);
    assert_eq!(vm.read_control(ControlRegister::StackPointer), 0);
    assert_eq!(vm.read_gpr(0), Ok(99));
}

#[test]
fn gpr_index_out_of_range() {
    let mut vm = VM::new(vec![]);
    let last = GPR_COUNT as u64 - 1;
    assert_eq!(vm.write_gpr(last, 1), Ok(()));
    assert_eq!(vm.read_gpr(last), Ok(1));
    assert_eq!(vm.read_gpr(last + 1), Err(Fault::RegisterIndexOutOfRange));
    assert_eq!(vm.write_gpr(last + 1, 1), Err(Fault::RegisterIndexOutOfRange));
}

#[test]
fn instruction_register_out_of_range_faults() {
    let bad = GPR_COUNT as u64;
    for instr in [
        Instruction::MOV(bad, 0),
        Instruction::MOV(0, bad),
        Instruction::MOVI(1, bad),
        Instruction::PUSH(bad),
        Instruction::POP(bad),
        Instruction::OUTPUT(bad as u16),
    ] {
        let mut vm = VM::new(vec![instr, Instruction::HALT()]);
        assert_eq!(vm.execute(), Status::Faulted(Fault::RegisterIndexOutOfRange));
        assert_eq!(vm.read_control(ControlRegister::InstructionPointer), 0);
        assert!(vm.outputs().is_empty());
    }
}

#[test]
fn empty_program_faults() {
    let mut vm = VM::new(vec![]);
    assert_eq!(vm.execute(), Status::Faulted(Fault::InstructionPointerOutOfBounds));
}

#[test]
fn endless_loop_hits_step_limit() {
    let mut vm = VM::new(vec![Instruction::JMP(0)]);
    assert_eq!(vm.execute_bounded(10), Status::Faulted(Fault::StepLimitExceeded));
    let mut vm = VM::new(vec![Instruction::HALT()]);
    assert_eq!(vm.execute_bounded(0), Status::Faulted(Fault::StepLimitExceeded));
    assert_eq!(vm.execute_bounded(1), Status::Halted);
    let mut vm = VM::new(vec![Instruction::JMP(0)]);
    assert_eq!(vm.execute(), Status::Faulted(Fault::StepLimitExceeded));
    assert!(DEFAULT_STEP_LIMIT > 0);
}

#[test]
fn single_steps() {
    let mut vm = VM::new(vec![Instruction::MOVI(4, 3), Instruction::MOV(3, 0), Instruction::HALT()]);
    assert_eq!(vm.step(), Status::Running);
    assert_eq!(vm.read_gpr(3), Ok(4));
    assert_eq!(vm.read_gpr(0), Ok(0));
    assert_eq!(vm.step(), Status::Running);
    assert_eq!(vm.read_gpr(0), Ok(4));
    assert_eq!(vm.step(), Status::Halted);
    assert_eq!(vm.read_control(ControlRegister::InstructionPointer), 2);
}

#[test]
fn control_registers_by_name() {
    let mut vm = VM::new(vec![Instruction::HALT(), Instruction::OUTPUT(0), Instruction::HALT()]);
    vm.write_control(ControlRegister::InstructionPointer, 1);
    vm.write_control(ControlRegister::StackPointer, 3);
    assert_eq!(vm.read_control(ControlRegister::StackPointer), 3);
    assert_eq!(vm.execute(), Status::Halted);
    assert_eq!(vm.outputs(), &vec![OutputEvent { register_index: 0, value: 0 }]);
    assert_eq!(vm.stack_pop(), Ok(0));
    assert_eq!(vm.read_control(ControlRegister::StackPointer), 2);
}

#[test]
fn push_pop_program_reverses_values() {
    let mut vm = VM::new(vec![
        Instruction::PUSH(0),
        Instruction::PUSH(1),
        Instruction::PUSH(2),
        Instruction::POP(3),
        Instruction::POP(4),
        Instruction::POP(5),
        Instruction::HALT(),
    ]);
    for (r, v) in [(0u64, 11u64), (1, 22), (2, 33)] {
        assert_eq!(vm.write_gpr(r, v), Ok(()));
    }
    assert_eq!(vm.execute(), Status::Halted);
    assert_eq!(vm.read_gpr(3), Ok(33));
    assert_eq!(vm.read_gpr(4), Ok(22));
    assert_eq!(vm.read_gpr(5), Ok(11));
    assert_eq!(vm.read_control(ControlRegister::StackPointer), 0);
}
