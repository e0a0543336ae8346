use reality_os::domain::{DomainEval, DomainKind};
use reality_os::isa::{
    boot_selftest_program, opcode_registry_ok, run_boot_selftest, Instr, Op, Vm, VmStatus,
};

fn ins(op: Op, a: u8, b: u8, c: u8, imm: i32) -> Instr {
    Instr { op: op.code(), a, b, c, imm }
}

fn dom(s_micro: i32, s_bits: u64) -> DomainEval {
    DomainEval { kind: DomainKind::Core, s_bits, c_bits: 0, trit: 1, s_micro, residual_finite: true }
}

fn run(prog: &[Instr], domains: &[DomainEval]) -> Vm {
    let mut vm = Vm::new();
    vm.run(prog, domains, 100);
    vm
}

#[test]
fn opcode_numbers_decode_and_encode() {
    for v in 0u8..=26 {
        let op = Op::from_u8(v).unwrap();
        assert_eq!(op.code(), v);
    }
    assert_eq!(Op::from_u8(27), None);
    assert_eq!(Op::from_u8(255), None);
    assert_eq!(Op::from_u8(12), Some(Op::EvalPanel));
}

#[test]
fn mnemonics() {
    assert_eq!(Op::Halt.mnemonic(), "HALT");
    assert_eq!(Op::EvalPanel.mnemonic(), "EVAL_PANEL");
    assert_eq!(Op::PhaseRot.mnemonic(), "PHASE_ROT");
    assert_eq!(Op::PushT.mnemonic(), "PUSH_T");
    assert_eq!(Op::Join.mnemonic(), "JOIN");
}

#[test]
fn registry_check_passes() {
    assert!(opcode_registry_ok());
}

#[test]
fn boot_selftest_program_shape() {
    let p = boot_selftest_program();
    assert_eq!(p.len(), 6);
    assert_eq!(p[2].op, Op::Addt.code());
    assert_eq!(p[4].imm, 42);
}

#[test]
fn boot_selftest_result() {
    let d = [dom(123, 7)];
    assert_eq!(run_boot_selftest(&d), (true, 6, 7, 42, 1));
}

#[test]
fn arithmetic_wraps() {
    let prog = [
        ins(Op::Imm, 1, 0, 0, i32::MAX),
        ins(Op::Imm, 2, 0, 0, 1),
        ins(Op::Addt, 3, 1, 2, 0),
        ins(Op::Subt, 4, 3, 2, 0),
        ins(Op::Mult, 5, 1, 1, 0),
        ins(Op::Negt, 6, 3, 0, 0),
        ins(Op::Halt, 0, 0, 0, 0),
    ];
    let vm = run(&prog, &[]);
    assert_eq!(vm.status, VmStatus::Halted);
    assert_eq!(vm.regs[3], i32::MIN);
    assert_eq!(vm.regs[4], i32::MAX);
    assert_eq!(vm.regs[5], 1);
    assert_eq!(vm.regs[6], i32::MIN);
    assert_eq!(vm.steps, 7);
}

#[test]
fn register_numbers_wrap_modulo_25() {
    let prog = [ins(Op::Imm, 26, 0, 0, 9), ins(Op::Movt, 2, 1, 0, 0), ins(Op::Halt, 0, 0, 0, 0)];
    let vm = run(&prog, &[]);
    assert_eq!(vm.regs[1], 9);
    assert_eq!(vm.regs[2], 9);
}

#[test]
fn min_max_collapse_consensus_phase() {
    let prog = [
        ins(Op::Imm, 1, 0, 0, -5),
        ins(Op::Imm, 2, 0, 0, 8),
        ins(Op::Min3, 3, 1, 2, 0),
        ins(Op::Max3, 4, 1, 2, 0),
        ins(Op::Collapse, 5, 1, 0, 0),
        ins(Op::Collapse, 6, 2, 0, 0),
        ins(Op::Collapse, 7, 0, 0, 0),
        ins(Op::Consensus, 8, 2, 2, 0),
        ins(Op::Consensus, 9, 1, 2, 0),
        ins(Op::PhaseRot, 10, 1, 0, 0),
        ins(Op::PhaseRot, 11, 0, 0, 0),
        ins(Op::PhaseRot, 12, 2, 0, 0),
        ins(Op::Halt, 0, 0, 0, 0),
    ];
    let vm = run(&prog, &[]);
    assert_eq!(&vm.regs[3..13], &[-5, 8, -1, 1, 0, 8, 0, 0, 1, -1]);
}

#[test]
fn branch_skips_forward_and_loops_back() {
    // r1 = 3; loop: r2 += 1 (via add with r3 = 1); r1 -= 1; branch back while r1 != 0
    let prog = [
        ins(Op::Imm, 1, 0, 0, 3),
        ins(Op::Imm, 3, 0, 0, 1),
        ins(Op::Addt, 2, 2, 3, 0),
        ins(Op::Subt, 1, 1, 3, 0),
        ins(Op::Brancht, 1, 0, 0, -3),
        ins(Op::Brancht, 3, 0, 0, 1),
        ins(Op::Imm, 4, 0, 0, 99),
        ins(Op::Halt, 0, 0, 0, 0),
    ];
    let vm = run(&prog, &[]);
    assert_eq!(vm.regs[2], 3);
    assert_eq!(vm.regs[4], 0);
    assert_eq!(vm.status, VmStatus::Halted);
}

#[test]
fn call_and_return() {
    let prog = [
        ins(Op::Call, 0, 0, 0, 3),
        ins(Op::Imm, 2, 0, 0, 5),
        ins(Op::Halt, 0, 0, 0, 0),
        ins(Op::Imm, 1, 0, 0, 4),
        ins(Op::Ret, 0, 0, 0, 0),
    ];
    let vm = run(&prog, &[]);
    assert_eq!(vm.regs[1], 4);
    assert_eq!(vm.regs[2], 5);
    assert_eq!(vm.csp, 0);
    assert_eq!(vm.call_stack[0], 1);
    assert_eq!(vm.status, VmStatus::Halted);
}

#[test]
fn return_without_call_halts() {
    let vm = run(&[ins(Op::Ret, 0, 0, 0, 0)], &[]);
    assert_eq!(vm.status, VmStatus::Halted);
}

#[test]
fn call_stack_overflow_is_an_error() {
    // CALL 0 forever: the 33rd call finds the call stack full.
    let vm = run(&[ins(Op::Call, 0, 0, 0, 0)], &[]);
    assert_eq!(vm.status, VmStatus::Error);
    assert_eq!(vm.csp, 32);
    assert_eq!(vm.steps, 33);
}

#[test]
fn push_pop() {
    let prog = [
        ins(Op::Imm, 1, 0, 0, 11),
        ins(Op::PushT, 1, 0, 0, 0),
        ins(Op::PopT, 2, 0, 0, 0),
        ins(Op::PopT, 3, 0, 0, 0),
    ];
    let vm = run(&prog, &[]);
    assert_eq!(vm.regs[2], 11);
    assert_eq!(vm.status, VmStatus::Error);
    assert_eq!(vm.sp, 0);
}

#[test]
fn push_onto_full_stack_is_an_error() {
    let prog = [ins(Op::PushT, 0, 0, 0, 0), ins(Op::Brancht, 1, 0, 0, -2), ins(Op::Halt, 0, 0, 0, 0)];
    let mut vm = Vm::new();
    vm.regs[1] = 1;
    vm.run(&prog, &[], 1000);
    assert_eq!(vm.status, VmStatus::Error);
    assert_eq!(vm.sp, 32);
}

#[test]
fn unknown_opcode_is_an_error() {
    let vm = run(&[Instr { op: 27, a: 0, b: 0, c: 0, imm: 0 }], &[]);
    assert_eq!(vm.status, VmStatus::Error);
    assert_eq!(vm.steps, 1);
    assert_eq!(vm.pc, 1);
}

#[test]
fn running_off_the_end_halts() {
    let vm = run(&[ins(Op::Imm, 1, 0, 0, 1)], &[]);
    assert_eq!(vm.status, VmStatus::Halted);
    assert_eq!(vm.steps, 1);
}

#[test]
fn eval_panel_picks_domain_modulo_table_length() {
    let d = [dom(10, 100), dom(20, 200), dom(30, 300)];
    let prog = [ins(Op::EvalPanel, 4, 5, 0, 77), ins(Op::Halt, 0, 0, 0, 0)];
    let vm = run(&prog, &d);
    assert_eq!(vm.regs[4], 30);
    assert_eq!(vm.last_emit_s_bits, 300);
    assert_eq!(vm.last_emit_tag, 77);
    assert_eq!(vm.eval_count, 1);
}

#[test]
fn emit_spawn_join_and_reserved_ops() {
    let prog = [
        ins(Op::Emit, 0, 0, 0, 5),
        ins(Op::Spawn, 0, 0, 0, 0),
        ins(Op::Spawn, 0, 0, 0, 0),
        ins(Op::Join, 0, 0, 0, 0),
        ins(Op::Syscall, 0, 0, 0, 0),
        ins(Op::Measure, 0, 0, 0, 0),
        ins(Op::Loadt, 1, 0, 0, 0),
        ins(Op::Halt, 0, 0, 0, 0),
    ];
    let vm = run(&prog, &[]);
    assert_eq!(vm.last_emit_tag, 5);
    assert_eq!(vm.spawn_count, 2);
    assert_eq!(vm.join_count, 1);
    assert_eq!(vm.steps, 8);
}

#[test]
fn step_after_stop_changes_nothing() {
    let prog = [ins(Op::Halt, 0, 0, 0, 0)];
    let mut vm = Vm::new();
    assert_eq!(vm.step(&prog, &[]), VmStatus::Halted);
    assert_eq!(vm.step(&prog, &[]), VmStatus::Halted);
    assert_eq!(vm.steps, 1);
}

#[test]
fn run_stops_after_max_steps() {
    let prog = [ins(Op::Brancht, 1, 0, 0, -1)];
    let mut vm = Vm::new();
    vm.regs[1] = 1;
    assert_eq!(vm.run(&prog, &[], 10), VmStatus::Running);
    assert_eq!(vm.steps, 10);
}

#[test]
fn splitting_the_step_budget_changes_nothing() {
    let prog = [
        ins(Op::Imm, 1, 0, 0, 5),
        ins(Op::Imm, 3, 0, 0, 1),
        ins(Op::Subt, 1, 1, 3, 0),
        ins(Op::Brancht, 1, 0, 0, -2),
        ins(Op::Halt, 0, 0, 0, 0),
    ];
    let mut a = Vm::new();
    a.run(&prog, &[], 4);
    a.run(&prog, &[], 5);
    let mut b = Vm::new();
    b.run(&prog, &[], 9);
    assert_eq!((a.pc, a.steps, a.status, a.regs), (b.pc, b.steps, b.status, b.regs));
}

#[test]
fn counters_need_not_trail_the_step_count() {
    let mut vm = Vm::new();
    vm.eval_count = 5;
    vm.spawn_count = 9;
    let prog = [ins(Op::Spawn, 0, 0, 0, 0), ins(Op::EvalPanel, 0, 0, 0, 1)];
    vm.run(&prog, &[dom(1, 2)], 2);
    assert_eq!((vm.steps, vm.spawn_count, vm.eval_count), (2, 10, 6));
}
