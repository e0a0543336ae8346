//! The FSOTB / Metatron trinary instruction set and its kernel-resident interpreter.
//!
//! 27 opcodes, a register file of 25 words (the `D_eff` ceiling), a value stack
//! and a call stack of 32 entries each.

use vstd::prelude::*;
use crate::domain::DomainEval;

verus! {

/// Word width in trits (ABI).
pub const WORD_WIDTH_TRITS: u32 = 27;
/// Register file size (= `D_eff` ceiling).
pub const REGISTER_COUNT: usize = 25;
/// Cooperative task slots (ABI).
pub const NUM_TASK_SLOTS: usize = 8;
/// Most instructions in a boot program blob.
pub const MAX_PROG_LEN: usize = 64;
/// Depth of the value stack and of the call stack.
pub const STACK_DEPTH: usize = 32;
/// Highest opcode number of the registry.
pub const MAX_OPCODE: u8 = 26;

/// Opcodes of the registry, in opcode-number order (`Halt` is 0, `Join` is 26).
#[derive(Clone, Copy, Debug, PartialEq, Eq, Structural)]
pub enum Op {
    Halt,
    Imm,
    Movt,
    Loadt,
    Storet,
    Addt,
    Subt,
    Mult,
    Negt,
    Min3,
    Max3,
    Collapse,
    EvalPanel,
    Consensus,
    PhaseRot,
    Brancht,
    Emit,
    LoadRule,
    ApplyOvr,
    Measure,
    Call,
    Ret,
    PushT,
    PopT,
    Syscall,
    Spawn,
    Join,
}

/// The opcode with number `v`, if the registry has one.
pub open spec fn op_of(v: u8) -> Option<Op> {
    match v {
        0u8 => Some(Op::Halt),
        1u8 => Some(Op::Imm),
        2u8 => Some(Op::Movt),
        3u8 => Some(Op::Loadt),
        4u8 => Some(Op::Storet),
        5u8 => Some(Op::Addt),
        6u8 => Some(Op::Subt),
        7u8 => Some(Op::Mult),
        8u8 => Some(Op::Negt),
        9u8 => Some(Op::Min3),
        10u8 => Some(Op::Max3),
        11u8 => Some(Op::Collapse),
        12u8 => Some(Op::EvalPanel),
        13u8 => Some(Op::Consensus),
        14u8 => Some(Op::PhaseRot),
        15u8 => Some(Op::Brancht),
        16u8 => Some(Op::Emit),
        17u8 => Some(Op::LoadRule),
        18u8 => Some(Op::ApplyOvr),
        19u8 => Some(Op::Measure),
        20u8 => Some(Op::Call),
        21u8 => Some(Op::Ret),
        22u8 => Some(Op::PushT),
        23u8 => Some(Op::PopT),
        24u8 => Some(Op::Syscall),
        25u8 => Some(Op::Spawn),
        26u8 => Some(Op::Join),
        _ => None,
    }
}

/// The opcode number of `op`.
pub open spec fn op_code(op: Op) -> u8 {
    match op {
        Op::Halt => 0u8,
        Op::Imm => 1u8,
        Op::Movt => 2u8,
        Op::Loadt => 3u8,
        Op::Storet => 4u8,
        Op::Addt => 5u8,
        Op::Subt => 6u8,
        Op::Mult => 7u8,
        Op::Negt => 8u8,
        Op::Min3 => 9u8,
        Op::Max3 => 10u8,
        Op::Collapse => 11u8,
        Op::EvalPanel => 12u8,
        Op::Consensus => 13u8,
        Op::PhaseRot => 14u8,
        Op::Brancht => 15u8,
        Op::Emit => 16u8,
        Op::LoadRule => 17u8,
        Op::ApplyOvr => 18u8,
        Op::Measure => 19u8,
        Op::Call => 20u8,
        Op::Ret => 21u8,
        Op::PushT => 22u8,
        Op::PopT => 23u8,
        Op::Syscall => 24u8,
        Op::Spawn => 25u8,
        Op::Join => 26u8,
    }
}

/// The assembler mnemonic of `op`.
pub open spec fn op_mnemonic(op: Op) -> Seq<char> {
    match op {
        Op::Halt => "HALT"@,
        Op::Imm => "IMM"@,
        Op::Movt => "MOVT"@,
        Op::Loadt => "LOADT"@,
        Op::Storet => "STORET"@,
        Op::Addt => "ADDT"@,
        Op::Subt => "SUBT"@,
        Op::Mult => "MULT"@,
        Op::Negt => "NEGT"@,
        Op::Min3 => "MIN3"@,
        Op::Max3 => "MAX3"@,
        Op::Collapse => "COLLAPSE"@,
        Op::EvalPanel => "EVAL_PANEL"@,
        Op::Consensus => "CONSENSUS"@,
        Op::PhaseRot => "PHASE_ROT"@,
        Op::Brancht => "BRANCHT"@,
        Op::Emit => "EMIT"@,
        Op::LoadRule => "LOAD_RULE"@,
        Op::ApplyOvr => "APPLY_OVR"@,
        Op::Measure => "MEASURE"@,
        Op::Call => "CALL"@,
        Op::Ret => "RET"@,
        Op::PushT => "PUSH_T"@,
        Op::PopT => "POP_T"@,
        Op::Syscall => "SYSCALL"@,
        Op::Spawn => "SPAWN"@,
        Op::Join => "JOIN"@,
    }
}

impl Op {
    /// Decodes an opcode number.
    pub fn from_u8(v: u8) -> (r: Option<Op>)
        ensures
            r == op_of(v),
            r.is_some() <==> v <= MAX_OPCODE,
            r matches Some(op) ==> op_code(op) == v,
    {
        match v {
            0u8 => Some(Op::Halt),
            1u8 => Some(Op::Imm),
            2u8 => Some(Op::Movt),
            3u8 => Some(Op::Loadt),
            4u8 => Some(Op::Storet),
            5u8 => Some(Op::Addt),
            6u8 => Some(Op::Subt),
            7u8 => Some(Op::Mult),
            8u8 => Some(Op::Negt),
            9u8 => Some(Op::Min3),
            10u8 => Some(Op::Max3),
            11u8 => Some(Op::Collapse),
            12u8 => Some(Op::EvalPanel),
            13u8 => Some(Op::Consensus),
            14u8 => Some(Op::PhaseRot),
            15u8 => Some(Op::Brancht),
            16u8 => Some(Op::Emit),
            17u8 => Some(Op::LoadRule),
            18u8 => Some(Op::ApplyOvr),
            19u8 => Some(Op::Measure),
            20u8 => Some(Op::Call),
            21u8 => Some(Op::Ret),
            22u8 => Some(Op::PushT),
            23u8 => Some(Op::PopT),
            24u8 => Some(Op::Syscall),
            25u8 => Some(Op::Spawn),
            26u8 => Some(Op::Join),
            _ => None,
        }
    }

    /// The opcode number of this opcode.
    pub fn code(self) -> (r: u8)
        ensures
            r == op_code(self),
            r <= MAX_OPCODE,
            op_of(r) == Some(self),
    {
        match self {
            Op::Halt => 0u8,
            Op::Imm => 1u8,
            Op::Movt => 2u8,
            Op::Loadt => 3u8,
            Op::Storet => 4u8,
            Op::Addt => 5u8,
            Op::Subt => 6u8,
            Op::Mult => 7u8,
            Op::Negt => 8u8,
            Op::Min3 => 9u8,
            Op::Max3 => 10u8,
            Op::Collapse => 11u8,
            Op::EvalPanel => 12u8,
            Op::Consensus => 13u8,
            Op::PhaseRot => 14u8,
            Op::Brancht => 15u8,
            Op::Emit => 16u8,
            Op::LoadRule => 17u8,
            Op::ApplyOvr => 18u8,
            Op::Measure => 19u8,
            Op::Call => 20u8,
            Op::Ret => 21u8,
            Op::PushT => 22u8,
            Op::PopT => 23u8,
            Op::Syscall => 24u8,
            Op::Spawn => 25u8,
            Op::Join => 26u8,
        }
    }

    /// The assembler mnemonic of this opcode.
    pub fn mnemonic(self) -> (r: &'static str)
        ensures
            r@ == op_mnemonic(self),
    {
        match self {
            Op::Halt => "HALT",
            Op::Imm => "IMM",
            Op::Movt => "MOVT",
            Op::Loadt => "LOADT",
            Op::Storet => "STORET",
            Op::Addt => "ADDT",
            Op::Subt => "SUBT",
            Op::Mult => "MULT",
            Op::Negt => "NEGT",
            Op::Min3 => "MIN3",
            Op::Max3 => "MAX3",
            Op::Collapse => "COLLAPSE",
            Op::EvalPanel => "EVAL_PANEL",
            Op::Consensus => "CONSENSUS",
            Op::PhaseRot => "PHASE_ROT",
            Op::Brancht => "BRANCHT",
            Op::Emit => "EMIT",
            Op::LoadRule => "LOAD_RULE",
            Op::ApplyOvr => "APPLY_OVR",
            Op::Measure => "MEASURE",
            Op::Call => "CALL",
            Op::Ret => "RET",
            Op::PushT => "PUSH_T",
            Op::PopT => "POP_T",
            Op::Syscall => "SYSCALL",
            Op::Spawn => "SPAWN",
            Op::Join => "JOIN",
        }
    }
}

/// Kernel encoding of one instruction: opcode, three register or immediate
/// fields, and a signed immediate (also used as panel tag or branch offset).
#[derive(Clone, Copy, Debug)]
pub struct Instr {
    pub op: u8,
    pub a: u8,
    pub b: u8,
    pub c: u8,
    pub imm: i32,
}

/// Run state of the interpreter.
#[derive(Clone, Copy, Debug, PartialEq, Eq, Structural)]
pub enum VmStatus {
    Running,
    Halted,
    Error,
}

/// The interpreter: registers, program counter, value and call stacks, counters.
pub struct Vm {
    pub regs: [i32; 25],
    pub pc: usize,
    pub status: VmStatus,
    pub steps: u32,
    pub last_emit_tag: i32,
    pub last_emit_s_bits: u64,
    pub stack: [i32; 32],
    pub sp: usize,
    pub call_stack: [usize; 32],
    pub csp: usize,
    pub spawn_count: u32,
    pub join_count: u32,
    pub eval_count: u32,
}

/// Mathematical state of the interpreter.
#[verifier::ext_equal]
pub struct VmState {
    pub regs: Seq<i32>,
    pub pc: usize,
    pub status: VmStatus,
    pub steps: u32,
    pub last_emit_tag: i32,
    pub last_emit_s_bits: u64,
    pub stack: Seq<i32>,
    pub sp: usize,
    pub call_stack: Seq<usize>,
    pub csp: usize,
    pub spawn_count: u32,
    pub join_count: u32,
    pub eval_count: u32,
}

impl View for Vm {
    type V = VmState;

    open spec fn view(&self) -> VmState {
        VmState {
            regs: self.regs@,
            pc: self.pc,
            status: self.status,
            steps: self.steps,
            last_emit_tag: self.last_emit_tag,
            last_emit_s_bits: self.last_emit_s_bits,
            stack: self.stack@,
            sp: self.sp,
            call_stack: self.call_stack@,
            csp: self.csp,
            spawn_count: self.spawn_count,
            join_count: self.join_count,
            eval_count: self.eval_count,
        }
    }
}

/// Well-formed interpreter state: the register file and stacks have their
/// sizes and the stack pointers lie within the stacks.
pub open spec fn vm_wf(m: VmState) -> bool {
    &&& m.regs.len() == REGISTER_COUNT
    &&& m.stack.len() == STACK_DEPTH
    &&& m.call_stack.len() == STACK_DEPTH
    &&& m.sp <= STACK_DEPTH
    &&& m.csp <= STACK_DEPTH
}

/// Register `i`; register numbers wrap modulo the register file size.
pub open spec fn reg_of(m: VmState, i: u8) -> i32 {
    m.regs[(i as int) % (REGISTER_COUNT as int)]
}

/// `m` with register `i` (modulo the file size) set to `v`.
pub open spec fn with_reg(m: VmState, i: u8, v: i32) -> VmState {
    VmState { regs: m.regs.update((i as int) % (REGISTER_COUNT as int), v), ..m }
}

/// Sign of a register value as a trit.
pub open spec fn signum(v: i32) -> i32 {
    if v > 0 { 1i32 } else if v < 0 { -1i32 } else { 0i32 }
}

/// Trit rotation -1 -> 0 -> 1 -> -1 (any negative counts as -1, any positive as 1).
pub open spec fn phase_rot(v: i32) -> i32 {
    if v < 0 { 0i32 } else if v == 0 { 1i32 } else { -1i32 }
}

/// Panel of the domain table chosen by field `b`: `b` modulo the table length.
pub open spec fn panel_index(b: u8, n: nat) -> int {
    (b as int) % (if n > 0 { n as int } else { 1 })
}

/// Effect of instruction `ins` on `m`, once the program counter has moved past it.
pub open spec fn exec_instr(m: VmState, ins: Instr, dom: Seq<DomainEval>) -> VmState {
    match op_of(ins.op) {
        None => VmState { status: VmStatus::Error, ..m },
        Some(op) => match op {
            Op::Halt => VmState { status: VmStatus::Halted, ..m },
            Op::Imm => with_reg(m, ins.a, ins.imm),
            Op::Movt | Op::Loadt | Op::Storet => with_reg(m, ins.a, reg_of(m, ins.b)),
            Op::Addt => with_reg(m, ins.a, vstd::wrapping::i32_specs::wrapping_add(reg_of(m, ins.b), reg_of(m, ins.c))),
            Op::Subt => with_reg(m, ins.a, vstd::wrapping::i32_specs::wrapping_sub(reg_of(m, ins.b), reg_of(m, ins.c))),
            Op::Mult => with_reg(m, ins.a, vstd::wrapping::i32_specs::wrapping_mul(reg_of(m, ins.b), reg_of(m, ins.c))),
            Op::Negt => with_reg(m, ins.a, vstd::wrapping::i32_specs::wrapping_sub(0, reg_of(m, ins.b))),
            Op::Min3 => with_reg(m, ins.a,
                if reg_of(m, ins.b) < reg_of(m, ins.c) { reg_of(m, ins.b) } else { reg_of(m, ins.c) }),
            Op::Max3 => with_reg(m, ins.a,
                if reg_of(m, ins.b) > reg_of(m, ins.c) { reg_of(m, ins.b) } else { reg_of(m, ins.c) }),
            Op::Collapse => with_reg(m, ins.a, signum(reg_of(m, ins.b))),
            Op::EvalPanel => {
                let d = dom[panel_index(ins.b, dom.len())];
                VmState {
                    last_emit_s_bits: d.s_bits,
                    last_emit_tag: ins.imm,
                    eval_count: (m.eval_count + 1) as u32,
                    ..with_reg(m, ins.a, d.s_micro)
                }
            },
            Op::Consensus => with_reg(m, ins.a,
                if reg_of(m, ins.b) == reg_of(m, ins.c) { reg_of(m, ins.b) } else { 0 }),
            Op::PhaseRot => with_reg(m, ins.a, phase_rot(reg_of(m, ins.b))),
            Op::Brancht => if reg_of(m, ins.a) != 0 {
                VmState {
                    pc: if ins.imm >= 0 {
                        vstd::wrapping::usize_specs::wrapping_add(m.pc, ins.imm as usize)
                    } else {
                        vstd::wrapping::usize_specs::wrapping_sub(m.pc, (-ins.imm) as usize)
                    },
                    ..m
                }
            } else {
                m
            },
            Op::Emit => VmState { last_emit_tag: ins.imm, ..m },
            Op::LoadRule | Op::ApplyOvr | Op::Measure | Op::Syscall => m,
            Op::Call => if m.csp >= STACK_DEPTH {
                VmState { status: VmStatus::Error, ..m }
            } else {
                VmState {
                    call_stack: m.call_stack.update(m.csp as int, m.pc),
                    csp: (m.csp + 1) as usize,
                    pc: ins.imm as usize,
                    ..m
                }
            },
            Op::Ret => if m.csp == 0 {
                VmState { status: VmStatus::Halted, ..m }
            } else {
                VmState { csp: (m.csp - 1) as usize, pc: m.call_stack[m.csp - 1], ..m }
            },
            Op::PushT => if m.sp >= STACK_DEPTH {
                VmState { status: VmStatus::Error, ..m }
            } else {
                VmState {
                    stack: m.stack.update(m.sp as int, reg_of(m, ins.a)),
                    sp: (m.sp + 1) as usize,
                    ..m
                }
            },
            Op::PopT => if m.sp == 0 {
                VmState { status: VmStatus::Error, ..m }
            } else {
                with_reg(VmState { sp: (m.sp - 1) as usize, ..m }, ins.a, m.stack[m.sp - 1])
            },
            Op::Spawn => VmState { spawn_count: (m.spawn_count + 1) as u32, ..m },
            Op::Join => VmState { join_count: (m.join_count + 1) as u32, ..m },
        },
    }
}

/// One interpreter step: nothing happens once the machine has stopped; running
/// off the end of the program halts; otherwise the instruction at `pc` executes.
pub open spec fn vm_step(m: VmState, prog: Seq<Instr>, dom: Seq<DomainEval>) -> VmState {
    if m.status != VmStatus::Running {
        m
    } else if m.pc >= prog.len() {
        VmState { status: VmStatus::Halted, ..m }
    } else {
        exec_instr(
            VmState { pc: (m.pc + 1) as usize, steps: (m.steps + 1) as u32, ..m },
            prog[m.pc as int],
            dom,
        )
    }
}

/// The inputs on which a step would overflow: the step counter is full, a taken
/// branch has offset `i32::MIN` (whose negation overflows), a panel is
/// evaluated against an empty domain table, or the event counter that the
/// instruction advances (evaluations, spawns, joins) is full.
pub open spec fn step_overflows(m: VmState, prog: Seq<Instr>, dom: Seq<DomainEval>) -> bool {
    &&& m.status == VmStatus::Running
    &&& m.pc < prog.len()
    &&& {
        let ins = prog[m.pc as int];
        ||| m.steps == u32::MAX
        ||| (op_of(ins.op) == Some(Op::Brancht) && reg_of(m, ins.a) != 0 && ins.imm == i32::MIN)
        ||| (op_of(ins.op) == Some(Op::EvalPanel) && dom.len() == 0)
        ||| (op_of(ins.op) == Some(Op::EvalPanel) && m.eval_count == u32::MAX)
        ||| (op_of(ins.op) == Some(Op::Spawn) && m.spawn_count == u32::MAX)
        ||| (op_of(ins.op) == Some(Op::Join) && m.join_count == u32::MAX)
    }
}

/// The state after at most `k` steps (fewer if the machine stops earlier).
pub open spec fn vm_run(m: VmState, prog: Seq<Instr>, dom: Seq<DomainEval>, k: nat) -> VmState
    decreases k,
{
    if k == 0 || m.status != VmStatus::Running {
        m
    } else {
        vm_run(vm_step(m, prog, dom), prog, dom, (k - 1) as nat)
    }
}

/// Whether one of the first `k` steps from `m` would overflow.
pub open spec fn run_overflows(m: VmState, prog: Seq<Instr>, dom: Seq<DomainEval>, k: nat) -> bool
    decreases k,
{
    if k == 0 || m.status != VmStatus::Running {
        false
    } else {
        step_overflows(m, prog, dom) || run_overflows(vm_step(m, prog, dom), prog, dom, (k - 1) as nat)
    }
}

/// Splitting a step budget changes nothing: `a` steps and then `b` more reach
/// the state that `a + b` steps reach, and overflow on the way exactly when
/// the single run does.
pub proof fn lemma_run_split(m: VmState, prog: Seq<Instr>, dom: Seq<DomainEval>, a: nat, b: nat)
    ensures
        vm_run(vm_run(m, prog, dom, a), prog, dom, b) == vm_run(m, prog, dom, a + b),
        run_overflows(m, prog, dom, a + b) == (run_overflows(m, prog, dom, a)
            || run_overflows(vm_run(m, prog, dom, a), prog, dom, b)),
    decreases a,
{
    if a > 0 && m.status == VmStatus::Running {
        lemma_run_split(vm_step(m, prog, dom), prog, dom, (a - 1) as nat, b);
        assert((a - 1) as nat + b == (a + b - 1) as nat);
    } else if a == 0 {
    } else {
        lemma_run_stopped(m, prog, dom, b);
        lemma_run_stopped(m, prog, dom, a + b);
    }
}

proof fn lemma_run_stopped(m: VmState, prog: Seq<Instr>, dom: Seq<DomainEval>, k: nat)
    requires
        m.status != VmStatus::Running,
    ensures
        vm_run(m, prog, dom, k) == m,
        !run_overflows(m, prog, dom, k),
{
}

/// What the register instructions compute. From a running state whose `pc`
/// lies in the program, the step writes register `a` (modulo the file size)
/// with, for `x` register `b` and `y` register `c` before the step: IMM the
/// immediate; MOVT, LOADT and STORET `x`; ADDT, SUBT and MULT `x + y`, `x - y`
/// and `x * y` wrapped to 32 bits; NEGT the wrapped negation of `x`, which adds
/// up with `x` to 0 modulo 2^32; MIN3 and MAX3 the smaller and the larger of
/// `x` and `y`; COLLAPSE the sign of `x`; CONSENSUS `x` where `x` and `y`
/// agree and 0 where they differ; PHASE_ROT the next trit in the rotation
/// -1 -> 0 -> 1 -> -1 after the one that `x` stands for.
pub proof fn lemma_step_register_results(m: VmState, prog: Seq<Instr>, dom: Seq<DomainEval>)
    requires
        vm_wf(m),
        m.status == VmStatus::Running,
        m.pc < prog.len(),
    ensures
        ({
            let ins = prog[m.pc as int];
            let r = vm_step(m, prog, dom).regs[(ins.a as int) % 25];
            let x = m.regs[(ins.b as int) % 25];
            let y = m.regs[(ins.c as int) % 25];
            &&& ins.op == 1 ==> r == ins.imm
            &&& (ins.op == 2 || ins.op == 3 || ins.op == 4) ==> r == x
            &&& ins.op == 5 ==> (r - (x + y)) % 0x1_0000_0000 == 0
            &&& ins.op == 6 ==> (r - (x - y)) % 0x1_0000_0000 == 0
            &&& ins.op == 7 ==> (r - x * y) % 0x1_0000_0000 == 0
            &&& ins.op == 8 ==> (r + x) % 0x1_0000_0000 == 0
            &&& ins.op == 9 ==> r <= x && r <= y && (r == x || r == y)
            &&& ins.op == 10 ==> r >= x && r >= y && (r == x || r == y)
            &&& ins.op == 11 ==> (x > 0 ==> r == 1) && (x == 0 ==> r == 0) && (x < 0 ==> r == -1)
            &&& ins.op == 13 ==> (x == y ==> r == x) && (x != y ==> r == 0)
            &&& ins.op == 14 ==> (x < 0 ==> r == 0) && (x == 0 ==> r == 1) && (x > 0 ==> r == -1)
        }),
{
    let ins = prog[m.pc as int];
    let x = m.regs[(ins.b as int) % 25];
    let y = m.regs[(ins.c as int) % 25];
    if ins.op == 7 {
        let p: int = x * y;
        assert(p == (p / 0x1_0000_0000) * 0x1_0000_0000 + p % 0x1_0000_0000) by (nonlinear_arith);
        assert((p % 0x1_0000_0000 - p) % 0x1_0000_0000 == 0) by {
            vstd::arithmetic::div_mod::lemma_mod_multiples_basic(-(p / 0x1_0000_0000), 0x1_0000_0000);
        }
        assert((p % 0x1_0000_0000 - 0x1_0000_0000 - p) % 0x1_0000_0000 == 0) by {
            vstd::arithmetic::div_mod::lemma_mod_multiples_basic(-(p / 0x1_0000_0000) - 1, 0x1_0000_0000);
        }
    }
}

/// A register instruction (opcodes 1 to 11, 13 and 14) writes register `a` and
/// no other register, leaves the stacks, the emit record and the event
/// counters as they were, keeps the machine running and moves on to the next
/// instruction.
pub proof fn lemma_step_register_frame(m: VmState, prog: Seq<Instr>, dom: Seq<DomainEval>)
    requires
        prog.len() <= usize::MAX,
        vm_wf(m),
        m.status == VmStatus::Running,
        m.pc < prog.len(),
        1 <= prog[m.pc as int].op <= 14,
        prog[m.pc as int].op != 12,
        m.steps < u32::MAX,
    ensures
        ({
            let a = (prog[m.pc as int].a as int) % 25;
            let s = vm_step(m, prog, dom);
            &&& s.status == VmStatus::Running
            &&& s.pc == m.pc + 1
            &&& s.steps == m.steps + 1
            &&& s.regs.len() == 25
            &&& forall|j: int| 0 <= j < 25 && j != a ==> s.regs[j] == m.regs[j]
            &&& s.stack == m.stack && s.sp == m.sp
            &&& s.call_stack == m.call_stack && s.csp == m.csp
            &&& s.last_emit_tag == m.last_emit_tag && s.last_emit_s_bits == m.last_emit_s_bits
            &&& s.spawn_count == m.spawn_count && s.join_count == m.join_count
            &&& s.eval_count == m.eval_count
        }),
{
    let op = prog[m.pc as int].op;
    if op == 1 {
    } else if op == 2 {
    } else if op == 3 {
    } else if op == 4 {
    } else if op == 5 {
    } else if op == 6 {
    } else if op == 7 {
    } else if op == 8 {
    } else if op == 9 {
    } else if op == 10 {
    } else if op == 11 {
    } else if op == 13 {
    } else {
    }
}

/// What the other instructions do, from a running state whose `pc` lies in the
/// program. HALT halts; an opcode beyond the registry is an error; EVAL_PANEL
/// writes register `a` with the scaled score of the panel `b` (modulo the
/// table length), records that panel's score bits and the tag, and counts the
/// evaluation; BRANCHT moves `pc` by the immediate, counted from the next
/// instruction and modulo the address space, when register `a` is not zero;
/// EMIT records the tag; the reserved opcodes only move on; CALL pushes the
/// return address and jumps to the immediate; RET pops it, or halts on an
/// empty call stack; PUSHT pushes register `a` and POPT pops into it, both an
/// error where the stack is full or empty; SPAWN and JOIN count themselves.
/// Every instruction counts one step.
pub proof fn lemma_step_control(m: VmState, prog: Seq<Instr>, dom: Seq<DomainEval>)
    requires
        prog.len() <= usize::MAX,
        vm_wf(m),
        m.status == VmStatus::Running,
        m.pc < prog.len(),
        m.steps < u32::MAX,
    ensures
        ({
            let ins = prog[m.pc as int];
            let a = (ins.a as int) % 25;
            let s = vm_step(m, prog, dom);
            let next = m.pc + 1;
            &&& s.steps == m.steps + 1
            &&& ins.op == 0 ==> s.status == VmStatus::Halted && s.regs == m.regs && s.pc == next
            &&& ins.op > 26 ==> s.status == VmStatus::Error && s.regs == m.regs
            &&& (ins.op == 12 && dom.len() > 0 && m.eval_count < u32::MAX) ==> {
                let d = dom[(ins.b as int) % (dom.len() as int)];
                &&& s.status == VmStatus::Running && s.pc == next
                &&& s.regs[a] == d.s_micro
                &&& s.last_emit_s_bits == d.s_bits
                &&& s.last_emit_tag == ins.imm
                &&& s.eval_count == m.eval_count + 1
            }
            &&& ins.op == 15 ==> {
                &&& s.status == VmStatus::Running && s.regs == m.regs
                &&& m.regs[a] == 0 ==> s.pc == next
                &&& m.regs[a] != 0 ==> (s.pc - (next + ins.imm)) % (usize::MAX as int + 1) == 0
            }
            &&& ins.op == 16 ==> s.status == VmStatus::Running && s.pc == next
                && s.last_emit_tag == ins.imm && s.regs == m.regs
            &&& (ins.op == 17 || ins.op == 18 || ins.op == 19 || ins.op == 24)
                ==> s == (VmState { pc: next as usize, steps: (m.steps + 1) as u32, ..m })
            &&& ins.op == 20 ==> {
                &&& m.csp < 32 ==> s.status == VmStatus::Running && s.pc == ins.imm as usize
                    && s.csp == m.csp + 1 && s.call_stack[m.csp as int] == next
                &&& m.csp >= 32 ==> s.status == VmStatus::Error
            }
            &&& ins.op == 21 ==> {
                &&& m.csp == 0 ==> s.status == VmStatus::Halted
                &&& m.csp > 0 ==> s.status == VmStatus::Running && s.csp == m.csp - 1
                    && s.pc == m.call_stack[m.csp - 1]
            }
            &&& ins.op == 22 ==> {
                &&& m.sp < 32 ==> s.status == VmStatus::Running && s.sp == m.sp + 1
                    && s.stack[m.sp as int] == m.regs[a] && s.regs == m.regs && s.pc == next
                &&& m.sp >= 32 ==> s.status == VmStatus::Error
            }
            &&& ins.op == 23 ==> {
                &&& m.sp > 0 ==> s.status == VmStatus::Running && s.sp == m.sp - 1
                    && s.regs[a] == m.stack[m.sp - 1] && s.pc == next
                &&& m.sp == 0 ==> s.status == VmStatus::Error
            }
            &&& (ins.op == 25 && m.spawn_count < u32::MAX) ==> s.status == VmStatus::Running
                && s.spawn_count == m.spawn_count + 1 && s.regs == m.regs && s.pc == next
            &&& (ins.op == 26 && m.join_count < u32::MAX) ==> s.status == VmStatus::Running
                && s.join_count == m.join_count + 1 && s.regs == m.regs && s.pc == next
        }),
{
    let op = prog[m.pc as int].op;
    if op == 0 {
    } else if op == 1 {
    } else if op == 2 {
    } else if op == 3 {
    } else if op == 4 {
    } else if op == 5 {
    } else if op == 6 {
    } else if op == 7 {
    } else if op == 8 {
    } else if op == 9 {
    } else if op == 10 {
    } else if op == 11 {
    } else if op == 12 {
    } else if op == 13 {
    } else if op == 14 {
    } else if op == 15 {
    } else if op == 16 {
    } else if op == 17 {
    } else if op == 18 {
    } else if op == 19 {
    } else if op == 20 {
    } else if op == 21 {
    } else if op == 22 {
    } else if op == 23 {
    } else if op == 24 {
    } else if op == 25 {
    } else if op == 26 {
    } else {
    }
}

/// A stopped machine stays as it is, however many steps are asked of it, and a
/// running one whose `pc` has left the program halts without other change.
pub proof fn lemma_step_outside_program(m: VmState, prog: Seq<Instr>, dom: Seq<DomainEval>, k: nat)
    ensures
        m.status != VmStatus::Running ==> vm_run(m, prog, dom, k) == m,
        (m.status == VmStatus::Running && m.pc >= prog.len())
            ==> vm_step(m, prog, dom) == (VmState { status: VmStatus::Halted, ..m }),
{
    if m.status != VmStatus::Running {
        lemma_run_stopped(m, prog, dom, k);
    }
}

/// A run of no steps changes nothing and a run of one step is one step; a run
/// of `k + 1` steps is one step followed by a run of `k`.
pub proof fn lemma_run_steps(m: VmState, prog: Seq<Instr>, dom: Seq<DomainEval>, k: nat)
    ensures
        vm_run(m, prog, dom, 0) == m,
        vm_run(m, prog, dom, 1) == vm_step(m, prog, dom),
        vm_run(m, prog, dom, k + 1) == vm_run(vm_step(m, prog, dom), prog, dom, k),
{
    if m.status != VmStatus::Running {
        lemma_run_stopped(m, prog, dom, k);
        lemma_run_stopped(m, prog, dom, k + 1);
        lemma_run_stopped(m, prog, dom, 1);
    } else {
        assert(vm_run(m, prog, dom, 1) == vm_run(vm_step(m, prog, dom), prog, dom, 0));
    }
}

/// RET undoes CALL: calling a routine whose first instruction is RET comes
/// back to the instruction after the CALL with the call stack depth and the
/// registers as they were.
pub proof fn lemma_call_then_ret(m: VmState, prog: Seq<Instr>, dom: Seq<DomainEval>)
    requires
        prog.len() <= usize::MAX,
        vm_wf(m),
        m.status == VmStatus::Running,
        m.pc < prog.len(),
        prog[m.pc as int].op == 20,
        m.csp < 32,
        0 <= prog[m.pc as int].imm < prog.len(),
        prog[prog[m.pc as int].imm as int].op == 21,
        m.steps + 2 <= u32::MAX,
    ensures
        ({
            let s = vm_run(m, prog, dom, 2);
            &&& s.status == VmStatus::Running
            &&& s.pc == m.pc + 1
            &&& s.csp == m.csp
            &&& s.regs == m.regs
            &&& s.steps == m.steps + 2
        }),
{
    let s1 = vm_step(m, prog, dom);
    lemma_step_control(m, prog, dom);
    lemma_step_keeps_wf(m, prog, dom);
    assert(s1.pc == prog[m.pc as int].imm);
    lemma_step_control(s1, prog, dom);
    assert(vm_run(m, prog, dom, 2) == vm_run(s1, prog, dom, 1));
    assert(vm_run(s1, prog, dom, 1) == vm_run(vm_step(s1, prog, dom), prog, dom, 0));
}

/// POPT undoes PUSHT: pushing register `a` and popping into register `a'`
/// copies the value and leaves the stack depth as it was.
pub proof fn lemma_push_then_pop(m: VmState, prog: Seq<Instr>, dom: Seq<DomainEval>)
    requires
        prog.len() <= usize::MAX,
        vm_wf(m),
        m.status == VmStatus::Running,
        m.pc + 1 < prog.len(),
        prog[m.pc as int].op == 22,
        prog[m.pc + 1].op == 23,
        m.sp < 32,
        m.steps + 2 <= u32::MAX,
    ensures
        ({
            let s = vm_run(m, prog, dom, 2);
            &&& s.status == VmStatus::Running
            &&& s.pc == m.pc + 2
            &&& s.sp == m.sp
            &&& s.regs[(prog[m.pc + 1].a as int) % 25] == m.regs[(prog[m.pc as int].a as int) % 25]
        }),
{
    let s1 = vm_step(m, prog, dom);
    lemma_step_control(m, prog, dom);
    lemma_step_keeps_wf(m, prog, dom);
    assert(s1.sp == m.sp + 1 && s1.stack[m.sp as int] == m.regs[(prog[m.pc as int].a as int) % 25]);
    assert(s1.pc == m.pc + 1 && s1.status == VmStatus::Running);
    lemma_step_control(s1, prog, dom);
    assert(vm_run(m, prog, dom, 2) == vm_run(s1, prog, dom, 1));
    assert(vm_run(s1, prog, dom, 1) == vm_run(vm_step(s1, prog, dom), prog, dom, 0));
}

/// A step keeps the interpreter state well-formed.
pub proof fn lemma_step_keeps_wf(m: VmState, prog: Seq<Instr>, dom: Seq<DomainEval>)
    requires
        vm_wf(m),
        !step_overflows(m, prog, dom),
    ensures
        vm_wf(vm_step(m, prog, dom)),
{
}

impl Vm {
    /// A fresh interpreter: zeroed registers and stacks, status `Ok`.
    pub fn new() -> (vm: Vm)
        ensures
            vm_wf(vm@),
            vm@.regs == Seq::new(25, |i: int| 0i32),
            vm@.stack == Seq::new(32, |i: int| 0i32),
            vm@.call_stack == Seq::new(32, |i: int| 0usize),
            vm.pc == 0,
            vm.status == VmStatus::Running,
            vm.steps == 0,
            vm.last_emit_tag == 0,
            vm.last_emit_s_bits == 0,
            vm.sp == 0,
            vm.csp == 0,
            vm.spawn_count == 0,
            vm.join_count == 0,
            vm.eval_count == 0,
    {
        let vm = Vm {
            regs: [0i32; 25],
            pc: 0,
            status: VmStatus::Running,
            steps: 0,
            last_emit_tag: 0,
            last_emit_s_bits: 0,
            stack: [0i32; 32],
            sp: 0,
            call_stack: [0usize; 32],
            csp: 0,
            spawn_count: 0,
            join_count: 0,
            eval_count: 0,
        };
        assert(vm.regs@ =~= Seq::new(25, |i: int| 0i32));
        assert(vm.stack@ =~= Seq::new(32, |i: int| 0i32));
        assert(vm.call_stack@ =~= Seq::new(32, |i: int| 0usize));
        vm
    }

    fn reg(&self, i: u8) -> (v: i32)
        requires
            vm_wf(self@),
        ensures
            v == reg_of(self@, i),
    {
        let k: usize = (i as usize) % REGISTER_COUNT;
        self.regs[k]
    }

    fn set_reg(&mut self, i: u8, v: i32)
        requires
            vm_wf(old(self)@),
        ensures
            final(self)@ == with_reg(old(self)@, i, v),
    {
        let k: usize = (i as usize) % REGISTER_COUNT;
        self.regs[k] = v;
    }

    fn push(&mut self, v: i32) -> (ok: bool)
        requires
            vm_wf(old(self)@),
        ensures
            ok == (old(self).sp < STACK_DEPTH),
            ok ==> final(self)@ == (VmState {
                stack: old(self)@.stack.update(old(self).sp as int, v),
                sp: (old(self).sp + 1) as usize,
                ..old(self)@
            }),
            !ok ==> final(self)@ == old(self)@,
    {
        if self.sp >= STACK_DEPTH {
            return false;
        }
        self.stack[self.sp] = v;
        self.sp = self.sp + 1;
        true
    }

    fn pop(&mut self) -> (r: Option<i32>)
        requires
            vm_wf(old(self)@),
        ensures
            r.is_some() == (old(self).sp > 0),
            r.is_some() ==> r == Some(old(self)@.stack[old(self).sp - 1])
                && final(self)@ == (VmState { sp: (old(self).sp - 1) as usize, ..old(self)@ }),
            r.is_none() ==> final(self)@ == old(self)@,
    {
        if self.sp == 0 {
            return None;
        }
        self.sp = self.sp - 1;
        Some(self.stack[self.sp])
    }

    /// Executes one instruction of `program`; `domains` is the domain table that
    /// panel evaluation reads. Returns the status after the step.
    pub fn step(&mut self, program: &[Instr], domains: &[DomainEval]) -> (r: VmStatus)
        requires
            vm_wf(old(self)@),
            !step_overflows(old(self)@, program@, domains@),
        ensures
            final(self)@ == vm_step(old(self)@, program@, domains@),
            vm_wf(final(self)@),
            r == final(self).status,
    {
        proof {
            lemma_step_keeps_wf(self@, program@, domains@);
        }
        if self.status != VmStatus::Running {
            return self.status;
        }
        if self.pc >= program.len() {
            self.status = VmStatus::Halted;
            return self.status;
        }
        let ins = program[self.pc];
        self.pc = self.pc + 1;
        self.steps = self.steps + 1;
        let op = match Op::from_u8(ins.op) {
            Some(o) => o,
            None => {
                self.status = VmStatus::Error;
                return self.status;
            },
        };
        match op {
            Op::Halt => {
                self.status = VmStatus::Halted;
            },
            Op::Imm => {
                self.set_reg(ins.a, ins.imm);
            },
            Op::Movt => {
                let v = self.reg(ins.b);
                self.set_reg(ins.a, v);
            },
            Op::Loadt | Op::Storet => {
                // Memory operands are not backed yet: both act as a register move.
                let v = self.reg(ins.b);
                self.set_reg(ins.a, v);
            },
            Op::Addt => {
                let v = self.reg(ins.b).wrapping_add(self.reg(ins.c));
                self.set_reg(ins.a, v);
            },
            Op::Subt => {
                let v = self.reg(ins.b).wrapping_sub(self.reg(ins.c));
                self.set_reg(ins.a, v);
            },
            Op::Mult => {
                let v = self.reg(ins.b).wrapping_mul(self.reg(ins.c));
                self.set_reg(ins.a, v);
            },
            Op::Negt => {
                let v = 0i32.wrapping_sub(self.reg(ins.b));
                self.set_reg(ins.a, v);
            },
            Op::Min3 => {
                let x = self.reg(ins.b);
                let y = self.reg(ins.c);
                self.set_reg(ins.a, if x < y { x } else { y });
            },
            Op::Max3 => {
                let x = self.reg(ins.b);
                let y = self.reg(ins.c);
                self.set_reg(ins.a, if x > y { x } else { y });
            },
            Op::Collapse => {
                let v = self.reg(ins.b);
                let t: i32 = if v > 0 { 1 } else if v < 0 { -1 } else { 0 };
                self.set_reg(ins.a, t);
            },
            Op::EvalPanel => {
                let n = domains.len();
                let modulus: usize = if n > 0 { n } else { 1 };
                let idx: usize = (ins.b as usize) % modulus;
                let d = domains[idx];
                self.set_reg(ins.a, d.s_micro);
                self.last_emit_s_bits = d.s_bits;
                self.last_emit_tag = ins.imm;
                self.eval_count = self.eval_count + 1;
            },
            Op::Consensus => {
                let x = self.reg(ins.b);
                let y = self.reg(ins.c);
                self.set_reg(ins.a, if x == y { x } else { 0 });
            },
            Op::PhaseRot => {
                let v = self.reg(ins.b);
                let r: i32 = if v < 0 { 0 } else if v == 0 { 1 } else { -1 };
                self.set_reg(ins.a, r);
            },
            Op::Brancht => {
                if self.reg(ins.a) != 0 {
                    let delta = ins.imm;
                    if delta >= 0 {
                        self.pc = self.pc.wrapping_add(delta as usize);
                    } else {
                        self.pc = self.pc.wrapping_sub((-delta) as usize);
                    }
                }
            },
            Op::Emit => {
                self.last_emit_tag = ins.imm;
            },
            Op::LoadRule | Op::ApplyOvr | Op::Measure | Op::Syscall => {
                // Reserved: succeed without effect.
            },
            Op::Call => {
                if self.csp >= STACK_DEPTH {
                    self.status = VmStatus::Error;
                } else {
                    self.call_stack[self.csp] = self.pc;
                    self.csp = self.csp + 1;
                    self.pc = ins.imm as usize;
                }
            },
            Op::Ret => {
                if self.csp == 0 {
                    self.status = VmStatus::Halted;
                } else {
                    self.csp = self.csp - 1;
                    self.pc = self.call_stack[self.csp];
                }
            },
            Op::PushT => {
                let v = self.reg(ins.a);
                if !self.push(v) {
                    self.status = VmStatus::Error;
                }
            },
            Op::PopT => {
                match self.pop() {
                    Some(v) => self.set_reg(ins.a, v),
                    None => self.status = VmStatus::Error,
                }
            },
            Op::Spawn => {
                self.spawn_count = self.spawn_count + 1;
            },
            Op::Join => {
                self.join_count = self.join_count + 1;
            },
        }
        self.status
    }

    /// Steps the interpreter until it stops or `max_steps` steps have been taken.
    pub fn run(&mut self, program: &[Instr], domains: &[DomainEval], max_steps: u32) -> (r: VmStatus)
        requires
            vm_wf(old(self)@),
            !run_overflows(old(self)@, program@, domains@, max_steps as nat),
        ensures
            final(self)@ == vm_run(old(self)@, program@, domains@, max_steps as nat),
            vm_wf(final(self)@),
            r == final(self).status,
    {
        let ghost m0 = self@;
        let mut n: u32 = 0;
        while self.status == VmStatus::Running && n < max_steps
            invariant
                vm_wf(self@),
                n <= max_steps,
                vm_run(self@, program@, domains@, (max_steps - n) as nat)
                    == vm_run(m0, program@, domains@, max_steps as nat),
                !run_overflows(self@, program@, domains@, (max_steps - n) as nat),
            decreases max_steps - n,
        {
            self.step(program, domains);
            n = n + 1;
        }
        self.status
    }
}

/// The boot self-test program:
/// `IMM r1, 3; IMM r2, 4; ADDT r0, r1, r2; EVAL_PANEL r3, panel 0; EMIT tag 42; HALT`.
pub open spec fn boot_program() -> Seq<Instr> {
    seq![
        Instr { op: 1, a: 1, b: 0, c: 0, imm: 3 },
        Instr { op: 1, a: 2, b: 0, c: 0, imm: 4 },
        Instr { op: 5, a: 0, b: 1, c: 2, imm: 0 },
        Instr { op: 12, a: 3, b: 0, c: 0, imm: 0 },
        Instr { op: 16, a: 0, b: 0, c: 0, imm: 42 },
        Instr { op: 0, a: 0, b: 0, c: 0, imm: 0 },
    ]
}

/// Builds the boot self-test program.
pub fn boot_selftest_program() -> (prog: [Instr; 6])
    ensures
        prog@ == boot_program(),
{
    let prog = [
        Instr { op: Op::Imm.code(), a: 1, b: 0, c: 0, imm: 3 },
        Instr { op: Op::Imm.code(), a: 2, b: 0, c: 0, imm: 4 },
        Instr { op: Op::Addt.code(), a: 0, b: 1, c: 2, imm: 0 },
        Instr { op: Op::EvalPanel.code(), a: 3, b: 0, c: 0, imm: 0 },
        Instr { op: Op::Emit.code(), a: 0, b: 0, c: 0, imm: 42 },
        Instr { op: Op::Halt.code(), a: 0, b: 0, c: 0, imm: 0 },
    ];
    assert(prog@ =~= boot_program());
    prog
}

proof fn lemma_boot_step_imm(m: VmState, dom: Seq<DomainEval>, k: int)
    requires
        vm_wf(m),
        m.status == VmStatus::Running,
        k == 0 || k == 1,
        m.pc == k,
        m.steps == k,
    ensures
        vm_step(m, boot_program(), dom) == with_reg(
            VmState { pc: (k + 1) as usize, steps: (k + 1) as u32, ..m }, (k + 1) as u8, (k + 3) as i32),
        !step_overflows(m, boot_program(), dom),
{
    assert(boot_program()[k] == Instr { op: 1, a: (k + 1) as u8, b: 0, c: 0, imm: (k + 3) as i32 });
}

proof fn lemma_boot_step_add(m: VmState, dom: Seq<DomainEval>)
    requires
        vm_wf(m),
        m.status == VmStatus::Running,
        m.pc == 2,
        m.steps == 2,
        m.regs[1] == 3,
        m.regs[2] == 4,
    ensures
        vm_step(m, boot_program(), dom) == with_reg(VmState { pc: 3, steps: 3, ..m }, 0, 7),
        !step_overflows(m, boot_program(), dom),
{
    assert(boot_program()[2] == Instr { op: 5, a: 0, b: 1, c: 2, imm: 0 });
}

proof fn lemma_boot_step_eval(m: VmState, dom: Seq<DomainEval>)
    requires
        vm_wf(m),
        m.status == VmStatus::Running,
        m.pc == 3,
        m.steps == 3,
        m.eval_count == 0,
        dom.len() > 0,
    ensures
        vm_step(m, boot_program(), dom).status == VmStatus::Running,
        vm_step(m, boot_program(), dom).pc == 4,
        vm_step(m, boot_program(), dom).steps == 4,
        vm_step(m, boot_program(), dom).eval_count == 1,
        vm_step(m, boot_program(), dom).regs[0] == m.regs[0],
        vm_wf(vm_step(m, boot_program(), dom)),
        !step_overflows(m, boot_program(), dom),
{
    assert(boot_program()[3] == Instr { op: 12, a: 3, b: 0, c: 0, imm: 0 });
    lemma_step_keeps_wf(m, boot_program(), dom);
}

proof fn lemma_boot_step_emit(m: VmState, dom: Seq<DomainEval>)
    requires
        vm_wf(m),
        m.status == VmStatus::Running,
        m.pc == 4,
        m.steps == 4,
    ensures
        vm_step(m, boot_program(), dom) == (VmState { pc: 5, steps: 5, last_emit_tag: 42, ..m }),
        !step_overflows(m, boot_program(), dom),
{
    assert(boot_program()[4] == Instr { op: 16, a: 0, b: 0, c: 0, imm: 42 });
}

proof fn lemma_boot_step_halt(m: VmState, dom: Seq<DomainEval>)
    requires
        vm_wf(m),
        m.status == VmStatus::Running,
        m.pc == 5,
        m.steps == 5,
    ensures
        vm_step(m, boot_program(), dom) == (VmState { pc: 6, steps: 6, status: VmStatus::Halted, ..m }),
        !step_overflows(m, boot_program(), dom),
{
    assert(boot_program()[5] == Instr { op: 0, a: 0, b: 0, c: 0, imm: 0 });
}

proof fn lemma_run_unfold(m: VmState, p: Seq<Instr>, dom: Seq<DomainEval>, k: nat)
    requires
        k > 0,
        m.status == VmStatus::Running,
        !step_overflows(m, p, dom),
    ensures
        vm_run(m, p, dom, k) == vm_run(vm_step(m, p, dom), p, dom, (k - 1) as nat),
        run_overflows(m, p, dom, k) == run_overflows(vm_step(m, p, dom), p, dom, (k - 1) as nat),
{
}

/// The boot self-test program, run from a fresh interpreter, halts after six
/// steps with `r0 = 7`, emit tag 42 and one panel evaluation.
pub proof fn lemma_boot_program_run(m0: VmState, dom: Seq<DomainEval>)
    requires
        vm_wf(m0),
        m0.status == VmStatus::Running,
        m0.pc == 0,
        m0.steps == 0,
        m0.eval_count == 0,
        dom.len() > 0,
    ensures
        !run_overflows(m0, boot_program(), dom, 32),
        vm_run(m0, boot_program(), dom, 32).status == VmStatus::Halted,
        vm_run(m0, boot_program(), dom, 32).steps == 6,
        vm_run(m0, boot_program(), dom, 32).regs[0] == 7,
        vm_run(m0, boot_program(), dom, 32).last_emit_tag == 42,
        vm_run(m0, boot_program(), dom, 32).eval_count == 1,
{
    let p = boot_program();
    lemma_boot_step_imm(m0, dom, 0);
    let m1 = vm_step(m0, p, dom);
    lemma_boot_step_imm(m1, dom, 1);
    let m2 = vm_step(m1, p, dom);
    lemma_boot_step_add(m2, dom);
    let m3 = vm_step(m2, p, dom);
    lemma_boot_step_eval(m3, dom);
    let m4 = vm_step(m3, p, dom);
    lemma_boot_step_emit(m4, dom);
    let m5 = vm_step(m4, p, dom);
    lemma_boot_step_halt(m5, dom);
    let m6 = vm_step(m5, p, dom);
    lemma_run_unfold(m0, p, dom, 32);
    lemma_run_unfold(m1, p, dom, 31);
    lemma_run_unfold(m2, p, dom, 30);
    lemma_run_unfold(m3, p, dom, 29);
    lemma_run_unfold(m4, p, dom, 28);
    lemma_run_unfold(m5, p, dom, 27);
    assert(vm_run(m6, p, dom, 26) == m6);
    assert(!run_overflows(m6, p, dom, 26));
}

/// Runs the boot self-test program on a fresh interpreter.
/// Returns `(ok, steps, r0, emit_tag, eval_count)`.
pub fn run_boot_selftest(domains: &[DomainEval]) -> (r: (bool, u32, i32, i32, u32))
    requires
        domains@.len() > 0,
    ensures
        r == (true, 6u32, 7i32, 42i32, 1u32),
{
    let prog = boot_selftest_program();
    let mut vm = Vm::new();
    proof {
        lemma_boot_program_run(vm@, domains@);
    }
    let st = vm.run(&prog, domains, 32);
    let ok = st == VmStatus::Halted && vm.regs[0] == 7 && vm.last_emit_tag == 42 && vm.eval_count >= 1;
    (ok, vm.steps, vm.regs[0], vm.last_emit_tag, vm.eval_count)
}

/// Checks that every opcode number `0..=26` decodes and that the ABI constants
/// have their registry values.
pub fn opcode_registry_ok() -> (ok: bool)
    ensures
        ok,
        forall|v: u8| v <= MAX_OPCODE ==> #[trigger] op_of(v).is_some(),
{
    let mut i: u8 = 0;
    while i <= MAX_OPCODE
        invariant
            i <= MAX_OPCODE + 1,
            forall|v: u8| v < i ==> #[trigger] op_of(v).is_some(),
        decreases MAX_OPCODE + 1 - i,
    {
        if Op::from_u8(i).is_none() {
            return false;
        }
        i = i + 1;
    }
    REGISTER_COUNT == 25 && WORD_WIDTH_TRITS == 27 && NUM_TASK_SLOTS == 8
}

} // verus!
