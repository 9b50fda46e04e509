use vstd::prelude::*;

use crate::instruction::{Fault, Instruction, OutputEvent, Status};

verus! {

/// Number of physical registers, control registers included.
pub const NUM_REGISTERS: usize = 64;

/// Number of leading physical registers reserved for control purposes.
pub const RESERVED_REGISTERS: usize = 5;

/// Number of general-purpose registers.
pub const GPR_COUNT: usize = NUM_REGISTERS - RESERVED_REGISTERS;

/// Physical slot of the instruction pointer.
pub const IP_REGISTER: usize = 0;

/// Physical slot of the stack pointer.
pub const SP_REGISTER: usize = 1;

/// Capacity of the operand stack.
pub const MAX_STACKSIZE: usize = 200;

/// Step ceiling used by `VM::execute`.
pub const DEFAULT_STEP_LIMIT: u64 = 1_000_000;

/// The control registers that can be addressed by name.
#[derive(Clone, Copy, Debug, PartialEq, Eq, Structural)]
pub enum ControlRegister {
    InstructionPointer,
    StackPointer,
}

/// Physical slot of a control register.
pub open spec fn control_slot(c: ControlRegister) -> int {
    match c {
        ControlRegister::InstructionPointer => IP_REGISTER as int,
        ControlRegister::StackPointer => SP_REGISTER as int,
    }
}

/// Abstract view of a machine: program, physical register file, stack and
/// what has been emitted so far.
pub struct MachineState {
    pub code: Seq<Instruction>,
    pub registers: Seq<u64>,
    pub stack: Seq<u64>,
    pub output: Seq<OutputEvent>,
}

impl MachineState {
    /// Register file and stack have their fixed sizes, and the stack
    /// pointer stays within the stack.
    pub open spec fn wf(self) -> bool {
        &&& self.code.len() <= usize::MAX
        &&& self.registers.len() == NUM_REGISTERS
        &&& self.stack.len() == MAX_STACKSIZE
        &&& self.sp() <= MAX_STACKSIZE
    }

    /// A new machine: every register, the control registers included, and
    /// every stack slot zero; nothing emitted.
    pub open spec fn fresh(code: Seq<Instruction>) -> MachineState {
        MachineState {
            code,
            registers: Seq::new(NUM_REGISTERS as nat, |i: int| 0u64),
            stack: Seq::new(MAX_STACKSIZE as nat, |i: int| 0u64),
            output: Seq::empty(),
        }
    }

    pub open spec fn ip(self) -> u64 {
        self.registers[IP_REGISTER as int]
    }

    pub open spec fn sp(self) -> u64 {
        self.registers[SP_REGISTER as int]
    }

    /// Value of logical general-purpose register `r`.
    pub open spec fn gpr(self, r: int) -> u64 {
        self.registers[RESERVED_REGISTERS + r]
    }

    pub open spec fn set_register(self, slot: int, v: u64) -> MachineState {
        MachineState { registers: self.registers.update(slot, v), ..self }
    }

    pub open spec fn set_gpr(self, r: int, v: u64) -> MachineState {
        self.set_register(RESERVED_REGISTERS + r, v)
    }

    pub open spec fn advance(self) -> MachineState {
        self.set_register(IP_REGISTER as int, (self.ip() + 1) as u64)
    }

    /// Outcome of pushing `v`: refused on a full stack, state unchanged.
    pub open spec fn push(self, v: u64) -> (MachineState, Result<(), Fault>) {
        if self.sp() >= MAX_STACKSIZE {
            (self, Err(Fault::StackOverflow))
        } else {
            let s = MachineState { stack: self.stack.update(self.sp() as int, v), ..self };
            (s.set_register(SP_REGISTER as int, (self.sp() + 1) as u64), Ok(()))
        }
    }

    /// Outcome of popping: refused on an empty stack, state unchanged.
    pub open spec fn pop(self) -> (MachineState, Result<u64, Fault>) {
        if self.sp() == 0 {
            (self, Err(Fault::StackUnderflow))
        } else {
            let top = (self.sp() - 1) as u64;
            (self.set_register(SP_REGISTER as int, top), Ok(self.stack[top as int]))
        }
    }

    /// One fetch-decode-execute transition.
    pub open spec fn step(self) -> (MachineState, Status) {
        let oor = (self, Status::Faulted(Fault::RegisterIndexOutOfRange));
        if self.ip() >= self.code.len() {
            (self, Status::Faulted(Fault::InstructionPointerOutOfBounds))
        } else {
            match self.code[self.ip() as int] {
                Instruction::MOV(src, dst) => {
                    if src < GPR_COUNT && dst < GPR_COUNT {
                        (self.set_gpr(dst as int, self.gpr(src as int)).advance(), Status::Running)
                    } else {
                        oor
                    }
                },
                Instruction::MOVI(value, dst) => {
                    if dst < GPR_COUNT {
                        (self.set_gpr(dst as int, value).advance(), Status::Running)
                    } else {
                        oor
                    }
                },
                Instruction::PUSH(r) => {
                    if r >= GPR_COUNT {
                        oor
                    } else {
                        let (s, res) = self.push(self.gpr(r as int));
                        match res {
                            Ok(_) => (s.advance(), Status::Running),
                            Err(f) => (self, Status::Faulted(f)),
                        }
                    }
                },
                Instruction::POP(r) => {
                    if r >= GPR_COUNT {
                        oor
                    } else {
                        let (s, res) = self.pop();
                        match res {
                            Ok(v) => (s.set_gpr(r as int, v).advance(), Status::Running),
                            Err(f) => (self, Status::Faulted(f)),
                        }
                    }
                },
                Instruction::JMP(target) => {
                    (self.set_register(IP_REGISTER as int, target), Status::Running)
                },
                Instruction::OUTPUT(r) => {
                    if r < GPR_COUNT {
                        let ev = OutputEvent { register_index: r, value: self.gpr(r as int) };
                        (MachineState { output: self.output.push(ev), ..self }.advance(), Status::Running)
                    } else {
                        oor
                    }
                },
                Instruction::HALT() => (self, Status::Halted),
            }
        }
    }

    /// Runs at most `fuel` transitions; running out of fuel while still
    /// running is reported as `StepLimitExceeded`.
    pub open spec fn run(self, fuel: nat) -> (MachineState, Status)
        decreases fuel,
    {
        if fuel == 0 {
            (self, Status::Faulted(Fault::StepLimitExceeded))
        } else {
            let (t, st) = self.step();
            if st is Running {
                t.run((fuel - 1) as nat)
            } else {
                (t, st)
            }
        }
    }
}

/// The state after pushing each of `vs` in order.
pub open spec fn push_all(s: MachineState, vs: Seq<u64>) -> MachineState
    decreases vs.len(),
{
    if vs.len() == 0 {
        s
    } else {
        push_all(s.push(vs[0]).0, vs.drop_first())
    }
}

/// Pops `n` times, collecting the popped values in the order they came;
/// the first refused pop makes the whole sequence fail.
pub open spec fn pop_n(s: MachineState, n: nat) -> Result<(MachineState, Seq<u64>), Fault>
    decreases n,
{
    if n == 0 {
        Ok((s, Seq::empty()))
    } else {
        match pop_n(s, (n - 1) as nat) {
            Err(f) => Err(f),
            Ok((t, vs)) => match t.pop() {
                (u, Ok(v)) => Ok((u, vs.push(v))),
                (_, Err(f)) => Err(f),
            },
        }
    }
}

pub open spec fn reversed(vs: Seq<u64>) -> Seq<u64> {
    Seq::new(vs.len(), |i: int| vs[vs.len() - 1 - i])
}

proof fn lemma_push_all(s: MachineState, vs: Seq<u64>)
    requires
        s.wf(),
        s.sp() + vs.len() <= MAX_STACKSIZE,
    ensures
        push_all(s, vs).wf(),
        push_all(s, vs).sp() == s.sp() + vs.len(),
        forall|i: int| 0 <= i < s.sp() ==> push_all(s, vs).stack[i] == s.stack[i],
        forall|j: int| 0 <= j < vs.len() ==> push_all(s, vs).stack[s.sp() + j] == vs[j],
    decreases vs.len(),
{
    if vs.len() > 0 {
        let s1 = s.push(vs[0]).0;
        let rest = vs.drop_first();
        assert(s1.sp() == s.sp() + 1);
        assert(s1.stack == s.stack.update(s.sp() as int, vs[0]));
        lemma_push_all(s1, rest);
        let r = push_all(s, vs);
        assert(r == push_all(s1, rest));
        assert forall|i: int| 0 <= i < s.sp() implies r.stack[i] == s.stack[i] by {
            assert(r.stack[i] == s1.stack[i]);
        }
        assert forall|j: int| 0 <= j < vs.len() implies r.stack[s.sp() + j] == vs[j] by {
            if j > 0 {
                assert(r.stack[s1.sp() + (j - 1)] == rest[j - 1]);
            } else {
                assert(r.stack[s.sp() as int] == s1.stack[s.sp() as int]);
            }
        }
    }
}

proof fn lemma_pop_n(t: MachineState, n: nat)
    requires
        t.wf(),
        n <= t.sp(),
    ensures
        pop_n(t, n) is Ok,
        pop_n(t, n)->Ok_0.0.wf(),
        pop_n(t, n)->Ok_0.0.sp() == t.sp() - n,
        pop_n(t, n)->Ok_0.0.stack == t.stack,
        pop_n(t, n)->Ok_0.1 == Seq::new(n, |i: int| t.stack[t.sp() - 1 - i]),
    decreases n,
{
    if n > 0 {
        lemma_pop_n(t, (n - 1) as nat);
        let (u, vs) = pop_n(t, (n - 1) as nat)->Ok_0;
        assert(vs.push(u.stack[u.sp() - 1]) =~= Seq::new(n, |i: int| t.stack[t.sp() - 1 - i]));
    }
}

/// Pushing values and then popping as many gives them back in reverse
/// order, and the stack pointer ends where it started.
pub proof fn lemma_stack_lifo(s: MachineState, vs: Seq<u64>)
    requires
        s.wf(),
        s.sp() + vs.len() <= MAX_STACKSIZE,
    ensures
        pop_n(push_all(s, vs), vs.len()) is Ok,
        pop_n(push_all(s, vs), vs.len())->Ok_0.1 == reversed(vs),
        pop_n(push_all(s, vs), vs.len())->Ok_0.0.sp() == s.sp(),
{
    let x = push_all(s, vs);
    lemma_push_all(s, vs);
    lemma_pop_n(x, vs.len());
    let popped = pop_n(x, vs.len())->Ok_0.1;
    assert forall|i: int| 0 <= i < vs.len() implies popped[i] == reversed(vs)[i] by {
        assert(x.stack[s.sp() + (vs.len() - 1 - i)] == vs[vs.len() - 1 - i]);
    }
    assert(popped =~= reversed(vs));
}

/// A push refused on a full stack and a pop refused on an empty one leave
/// the machine unchanged.
pub proof fn lemma_stack_faults(s: MachineState, v: u64)
    requires
        s.wf(),
    ensures
        s.sp() == MAX_STACKSIZE ==> s.push(v) == (s, Err::<(), Fault>(Fault::StackOverflow)),
        s.sp() == 0 ==> s.pop() == (s, Err::<u64, Fault>(Fault::StackUnderflow)),
{
}

/// Writing a general-purpose register leaves both control registers alone;
/// in particular register 0 is not the instruction pointer.
pub proof fn lemma_gpr_not_control(s: MachineState, r: int, v: u64)
    requires
        s.wf(),
        0 <= r < GPR_COUNT,
    ensures
        s.set_gpr(r, v).ip() == s.ip(),
        s.set_gpr(r, v).sp() == s.sp(),
        s.set_gpr(r, v).gpr(r) == v,
{
}

/// Two fresh machines over the same program, run under the same ceiling,
/// end in the same state with the same outcome.
pub proof fn lemma_deterministic(a: MachineState, b: MachineState, fuel: nat)
    requires
        a == MachineState::fresh(a.code),
        b == MachineState::fresh(b.code),
        a.code == b.code,
    ensures
        a.run(fuel) == b.run(fuel),
{
}

/// A run that ended within `n` steps ends the same way under any larger
/// ceiling.
pub proof fn lemma_run_ceiling(s: MachineState, n: nat, m: nat)
    requires
        n <= m,
        s.run(n).1 != Status::Faulted(Fault::StepLimitExceeded),
    ensures
        s.run(m) == s.run(n),
    decreases n,
{
    if n > 0 {
        let (t, st) = s.step();
        if st is Running {
            lemma_run_ceiling(t, (n - 1) as nat, (m - 1) as nat);
        }
    }
}

/// A program that pushes the registers `srcs` in order, pops into the
/// registers `dsts` in order, then halts.
pub open spec fn push_pop_program(srcs: Seq<u64>, dsts: Seq<u64>) -> Seq<Instruction> {
    Seq::new(srcs.len(), |k: int| Instruction::PUSH(srcs[k])) + Seq::new(
        dsts.len(),
        |k: int| Instruction::POP(dsts[k]),
    ) + seq![Instruction::HALT()]
}

pub open spec fn all_gprs(rs: Seq<u64>) -> bool {
    forall|k: int| 0 <= k < rs.len() ==> rs[k] < GPR_COUNT
}

pub open spec fn pairwise_distinct(rs: Seq<u64>) -> bool {
    forall|a: int, b: int| 0 <= a < b < rs.len() ==> rs[a] != rs[b]
}

/// Some pop among the first `p` writes into physical slot `slot`.
pub open spec fn popped_into(dsts: Seq<u64>, p: int, slot: int) -> bool {
    exists|m: int| 0 <= m < p && slot == RESERVED_REGISTERS + dsts[m]
}

/// Where a run of `push_pop_program(srcs, dsts)` started at `s` stands
/// when it reaches state `t`.
pub open spec fn push_pop_stage(s: MachineState, srcs: Seq<u64>, dsts: Seq<u64>, t: MachineState) -> bool {
    let n = srcs.len() as int;
    let base = s.sp() as int;
    let j = t.ip() as int;
    &&& t.wf()
    &&& t.code == s.code
    &&& j <= 2 * n
    &&& forall|i: int|
        0 <= i < MAX_STACKSIZE && !(base <= i < base + n) ==> t.stack[i] == s.stack[i]
    &&& if j <= n {
        &&& t.sp() == base + j
        &&& forall|slot: int|
            0 <= slot < NUM_REGISTERS && slot != IP_REGISTER && slot != SP_REGISTER
                ==> t.registers[slot] == s.registers[slot]
        &&& forall|k: int| 0 <= k < j ==> t.stack[base + k] == s.gpr(srcs[k] as int)
    } else {
        &&& t.sp() == base + n - (j - n)
        &&& forall|slot: int|
            0 <= slot < NUM_REGISTERS && slot != IP_REGISTER && slot != SP_REGISTER
                && !popped_into(dsts, j - n, slot) ==> t.registers[slot] == s.registers[slot]
        &&& forall|k: int| 0 <= k < n ==> t.stack[base + k] == s.gpr(srcs[k] as int)
        &&& pairwise_distinct(dsts) ==> forall|m: int|
            0 <= m < j - n ==> t.gpr(dsts[m] as int) == s.gpr(srcs[n - 1 - m] as int)
    }
}

#[verifier::rlimit(50)]
proof fn lemma_push_pop_stage(
    s: MachineState,
    srcs: Seq<u64>,
    dsts: Seq<u64>,
    t: MachineState,
    fuel: nat,
)
    requires
        s.wf(),
        s.code == push_pop_program(srcs, dsts),
        srcs.len() == dsts.len(),
        all_gprs(srcs),
        all_gprs(dsts),
        s.sp() + srcs.len() <= MAX_STACKSIZE,
        push_pop_stage(s, srcs, dsts, t),
        fuel >= 2 * srcs.len() + 1 - t.ip(),
    ensures
        t.run(fuel).1 == Status::Halted,
        t.run(fuel).0.sp() == s.sp(),
        forall|i: int|
            0 <= i < MAX_STACKSIZE && !(s.sp() <= i < s.sp() + srcs.len()) ==> t.run(fuel).0.stack[i]
                == s.stack[i],
        pairwise_distinct(dsts) ==> forall|m: int|
            0 <= m < dsts.len() ==> t.run(fuel).0.gpr(dsts[m] as int) == s.gpr(
                srcs[srcs.len() - 1 - m] as int,
            ),
    decreases 2 * srcs.len() - t.ip(),
{
    let n = srcs.len() as int;
    let base = s.sp() as int;
    let j = t.ip() as int;
    let code = s.code;
    assert(code.len() == 2 * n + 1);
    if j == 2 * n {
        assert(code[j] == Instruction::HALT());
        assert(t.step() == (t, Status::Halted));
    } else {
        let (t1, st) = t.step();
        if j < n {
            assert(code[j] == Instruction::PUSH(srcs[j]));
            let r = srcs[j] as int;
            assert(t.gpr(r) == s.gpr(r));
            assert(st == Status::Running);
            assert(t1.sp() == base + j + 1);
            assert(t1.stack == t.stack.update(base + j, s.gpr(r)));
            assert(t1.ip() == j + 1);
            assert forall|k: int| 0 <= k < j + 1 implies t1.stack[base + k] == s.gpr(
                srcs[k] as int,
            ) by {
                if k < j {
                    assert(t1.stack[base + k] == t.stack[base + k]);
                }
            }
            if j + 1 > n {
                assert(false);
            }
            assert(push_pop_stage(s, srcs, dsts, t1));
        } else {
            let p = j - n;
            assert(code[j] == Instruction::POP(dsts[p]));
            let d = dsts[p] as int;
            let v = t.stack[base + n - p - 1];
            assert(v == s.gpr(srcs[n - 1 - p] as int));
            assert(st == Status::Running);
            assert(t1.sp() == base + n - p - 1);
            assert(t1.stack == t.stack);
            assert(t1.ip() == j + 1);
            assert(t1.gpr(d) == v);
            assert forall|slot: int|
                0 <= slot < NUM_REGISTERS && slot != IP_REGISTER && slot != SP_REGISTER
                    && !popped_into(dsts, p + 1, slot) implies t1.registers[slot]
                == s.registers[slot] by {
                assert(slot != RESERVED_REGISTERS + d);
                if popped_into(dsts, p, slot) {
                    let m = choose|m: int| 0 <= m < p && slot == RESERVED_REGISTERS + dsts[m];
                    assert(popped_into(dsts, p + 1, slot));
                }
                if j == n {
                    assert(t.registers[slot] == s.registers[slot]);
                }
            }
            if pairwise_distinct(dsts) {
                assert forall|m: int| 0 <= m < p + 1 implies t1.gpr(dsts[m] as int) == s.gpr(
                    srcs[n - 1 - m] as int,
                ) by {
                    if m < p {
                        assert(dsts[m] != dsts[p]);
                    }
                }
            }
            assert(push_pop_stage(s, srcs, dsts, t1));
        }
        lemma_push_pop_stage(s, srcs, dsts, t1, (fuel - 1) as nat);
    }
}

/// Run as a program, pushes followed by as many pops halt with the stack
/// pointer back where it started and the stack outside the pushed slots
/// untouched; when the pops go to distinct registers, each receives the
/// values in reverse order of pushing.
pub proof fn lemma_push_pop_program(
    s: MachineState,
    srcs: Seq<u64>,
    dsts: Seq<u64>,
    fuel: nat,
)
    requires
        s.wf(),
        s.code == push_pop_program(srcs, dsts),
        srcs.len() == dsts.len(),
        all_gprs(srcs),
        all_gprs(dsts),
        s.ip() == 0,
        s.sp() + srcs.len() <= MAX_STACKSIZE,
        fuel >= 2 * srcs.len() + 1,
    ensures
        s.run(fuel).1 == Status::Halted,
        s.run(fuel).0.sp() == s.sp(),
        forall|i: int|
            0 <= i < MAX_STACKSIZE && !(s.sp() <= i < s.sp() + srcs.len()) ==> s.run(fuel).0.stack[i]
                == s.stack[i],
        pairwise_distinct(dsts) ==> forall|m: int|
            0 <= m < dsts.len() ==> s.run(fuel).0.gpr(dsts[m] as int) == s.gpr(
                srcs[srcs.len() - 1 - m] as int,
            ),
{
    lemma_push_pop_stage(s, srcs, dsts, s, fuel);
}

/// A register machine executing one program.
pub struct VM {
    code: Vec<Instruction>,
    registers: Vec<u64>,
    stack: Vec<u64>,
    output: Vec<OutputEvent>,
}

impl View for VM {
    type V = MachineState;

    closed spec fn view(&self) -> MachineState {
        MachineState {
            code: self.code@,
            registers: self.registers@,
            stack: self.stack@,
            output: self.output@,
        }
    }
}

impl VM {
    /// Maps a logical general-purpose register index to its physical slot.
    fn gpr(reg: u64) -> (r: usize)
        requires
            reg < GPR_COUNT,
        ensures
            r == RESERVED_REGISTERS + reg,
    {
        RESERVED_REGISTERS + reg as usize
    }

    fn ip(&self) -> (r: u64)
        requires
            self@.wf(),
        ensures
            r == self@.ip(),
    {
        self.registers[IP_REGISTER]
    }

    /// Moves the instruction pointer to the next instruction.
    fn incr_ip(&mut self) -> (r: u64)
        requires
            old(self)@.wf(),
            old(self)@.ip() < u64::MAX,
        ensures
            final(self)@ == old(self)@.advance(),
            r == final(self)@.ip(),
    {
        let ip = self.registers[IP_REGISTER];
        self.registers.set(IP_REGISTER, ip + 1);
        self.ip()
    }

    /// Adds one to a physical register.
    fn incr_reg(&mut self, reg: usize) -> (r: u64)
        requires
            old(self)@.wf(),
            reg < NUM_REGISTERS,
            old(self)@.registers[reg as int] < u64::MAX,
            reg == SP_REGISTER ==> old(self)@.sp() < MAX_STACKSIZE,
        ensures
            final(self)@ == old(self)@.set_register(reg as int, (old(self)@.registers[reg as int] + 1) as u64),
            r == old(self)@.registers[reg as int] + 1,
    {
        let v = self.registers[reg] + 1;
        self.registers.set(reg, v);
        v
    }

    /// Subtracts one from a physical register.
    fn decr_reg(&mut self, reg: usize) -> (r: u64)
        requires
            old(self)@.wf(),
            reg < NUM_REGISTERS,
            old(self)@.registers[reg as int] > 0,
        ensures
            final(self)@ == old(self)@.set_register(reg as int, (old(self)@.registers[reg as int] - 1) as u64),
            r == old(self)@.registers[reg as int] - 1,
    {
        let v = self.registers[reg] - 1;
        self.registers.set(reg, v);
        v
    }

    /// A machine over `instrs` with every register and stack slot zero.
    pub fn new(instrs: Vec<Instruction>) -> (r: VM)
        ensures
            r@ == MachineState::fresh(instrs@),
            r@.wf(),
    {
        let n = instrs.len();
        assert(n <= usize::MAX);
        let mut registers: Vec<u64> = Vec::new();
        while registers.len() < NUM_REGISTERS
            invariant
                registers.len() <= NUM_REGISTERS,
                forall|i: int| 0 <= i < registers.len() ==> registers@[i] == 0,
            decreases NUM_REGISTERS - registers.len(),
        {
            registers.push(0);
        }
        let mut stack: Vec<u64> = Vec::new();
        while stack.len() < MAX_STACKSIZE
            invariant
                stack.len() <= MAX_STACKSIZE,
                forall|i: int| 0 <= i < stack.len() ==> stack@[i] == 0,
            decreases MAX_STACKSIZE - stack.len(),
        {
            stack.push(0);
        }
        let vm = VM { code: instrs, registers, stack, output: Vec::new() };
        assert(vm@.registers =~= MachineState::fresh(instrs@).registers);
        assert(vm@.stack =~= MachineState::fresh(instrs@).stack);
        assert(vm@ == MachineState::fresh(instrs@));
        vm
    }

    /// Reads a control register by name.
    pub fn read_control(&self, c: ControlRegister) -> (r: u64)
        requires
            self@.wf(),
        ensures
            r == self@.registers[control_slot(c)],
    {
        match c {
            ControlRegister::InstructionPointer => self.registers[IP_REGISTER],
            ControlRegister::StackPointer => self.registers[SP_REGISTER],
        }
    }

    /// Writes a control register by name. The stack pointer never exceeds
    /// the stack's capacity.
    pub fn write_control(&mut self, c: ControlRegister, value: u64)
        requires
            old(self)@.wf(),
            c == ControlRegister::StackPointer ==> value <= MAX_STACKSIZE,
        ensures
            final(self)@ == old(self)@.set_register(control_slot(c), value),
            final(self)@.wf(),
    {
        match c {
            ControlRegister::InstructionPointer => self.registers.set(IP_REGISTER, value),
            ControlRegister::StackPointer => self.registers.set(SP_REGISTER, value),
        }
    }

    /// Reads logical general-purpose register `reg`.
    pub fn read_gpr(&self, reg: u64) -> (r: Result<u64, Fault>)
        requires
            self@.wf(),
        ensures
            reg < GPR_COUNT ==> r == Ok::<u64, Fault>(self@.gpr(reg as int)),
            reg >= GPR_COUNT ==> r == Err::<u64, Fault>(Fault::RegisterIndexOutOfRange),
    {
        if reg < GPR_COUNT as u64 {
            Ok(self.registers[VM::gpr(reg)])
        } else {
            Err(Fault::RegisterIndexOutOfRange)
        }
    }

    /// Writes logical general-purpose register `reg`; the control registers
    /// are never touched.
    pub fn write_gpr(&mut self, reg: u64, value: u64) -> (r: Result<(), Fault>)
        requires
            old(self)@.wf(),
        ensures
            reg < GPR_COUNT ==> r == Ok::<(), Fault>(()) && final(self)@ == old(self)@.set_gpr(reg as int, value),
            reg >= GPR_COUNT ==> r == Err::<(), Fault>(Fault::RegisterIndexOutOfRange) && final(self)@ == old(self)@,
            final(self)@.wf(),
            final(self)@.ip() == old(self)@.ip(),
            final(self)@.sp() == old(self)@.sp(),
    {
        if reg < GPR_COUNT as u64 {
            self.registers.set(VM::gpr(reg), value);
            Ok(())
        } else {
            Err(Fault::RegisterIndexOutOfRange)
        }
    }

    /// Writes `value` at the stack pointer, then increments it.
    pub fn stack_push(&mut self, value: u64) -> (r: Result<(), Fault>)
        requires
            old(self)@.wf(),
        ensures
            (final(self)@, r) == old(self)@.push(value),
            final(self)@.wf(),
            old(self)@.sp() == MAX_STACKSIZE ==> r == Err::<(), Fault>(Fault::StackOverflow)
                && final(self)@ == old(self)@,
    {
        let sp = self.registers[SP_REGISTER];
        if sp >= MAX_STACKSIZE as u64 {
            Err(Fault::StackOverflow)
        } else {
            self.stack.set(sp as usize, value);
            self.incr_reg(SP_REGISTER);
            Ok(())
        }
    }

    /// Decrements the stack pointer, then reads the slot it points at.
    pub fn stack_pop(&mut self) -> (r: Result<u64, Fault>)
        requires
            old(self)@.wf(),
        ensures
            (final(self)@, r) == old(self)@.pop(),
            final(self)@.wf(),
            old(self)@.sp() == 0 ==> r == Err::<u64, Fault>(Fault::StackUnderflow) && final(self)@
                == old(self)@,
    {
        if self.registers[SP_REGISTER] == 0 {
            Err(Fault::StackUnderflow)
        } else {
            let top = self.decr_reg(SP_REGISTER);
            Ok(self.stack[top as usize])
        }
    }

    /// Executes the instruction at the instruction pointer. A fault leaves
    /// the state exactly as it was.
    pub fn step(&mut self) -> (r: Status)
        requires
            old(self)@.wf(),
        ensures
            (final(self)@, r) == old(self)@.step(),
            final(self)@.wf(),
    {
        let ip = self.ip();
        if ip >= self.code.len() as u64 {
            return Status::Faulted(Fault::InstructionPointerOutOfBounds);
        }
        let current: Instruction = self.code[ip as usize];
        match current {
            Instruction::MOV(src, dst) => {
                if src < GPR_COUNT as u64 && dst < GPR_COUNT as u64 {
                    let v = self.registers[VM::gpr(src)];
                    self.registers.set(VM::gpr(dst), v);
                } else {
                    return Status::Faulted(Fault::RegisterIndexOutOfRange);
                }
            },
            Instruction::MOVI(value, dst) => {
                if dst < GPR_COUNT as u64 {
                    self.registers.set(VM::gpr(dst), value);
                } else {
                    return Status::Faulted(Fault::RegisterIndexOutOfRange);
                }
            },
            Instruction::PUSH(reg) => {
                if reg >= GPR_COUNT as u64 {
                    return Status::Faulted(Fault::RegisterIndexOutOfRange);
                }
                let v = self.registers[VM::gpr(reg)];
                match self.stack_push(v) {
                    Ok(_) => {},
                    Err(f) => {
                        return Status::Faulted(f);
                    },
                }
            },
            Instruction::POP(reg) => {
                if reg >= GPR_COUNT as u64 {
                    return Status::Faulted(Fault::RegisterIndexOutOfRange);
                }
                match self.stack_pop() {
                    Ok(v) => {
                        self.registers.set(VM::gpr(reg), v);
                    },
                    Err(f) => {
                        return Status::Faulted(f);
                    },
                }
            },
            Instruction::JMP(target) => {
                self.registers.set(IP_REGISTER, target);
                return Status::Running;
            },
            Instruction::OUTPUT(reg) => {
                if (reg as u64) < GPR_COUNT as u64 {
                    let v = self.registers[VM::gpr(reg as u64)];
                    self.output.push(OutputEvent { register_index: reg, value: v });
                } else {
                    return Status::Faulted(Fault::RegisterIndexOutOfRange);
                }
            },
            Instruction::HALT() => {
                return Status::Halted;
            },
        }
        self.incr_ip();
        Status::Running
    }

    /// Runs until the machine halts or faults, executing at most `limit`
    /// instructions.
    pub fn execute_bounded(&mut self, limit: u64) -> (r: Status)
        requires
            old(self)@.wf(),
        ensures
            (final(self)@, r) == old(self)@.run(limit as nat),
            final(self)@.wf(),
            r != Status::Running,
    {
        let mut fuel: u64 = limit;
        while fuel > 0
            invariant
                self@.wf(),
                self@.run(fuel as nat) == old(self)@.run(limit as nat),
            decreases fuel,
        {
            let st = self.step();
            if st != Status::Running {
                return st;
            }
            fuel = fuel - 1;
        }
        Status::Faulted(Fault::StepLimitExceeded)
    }

    /// Runs the program under the default step ceiling.
    pub fn execute(&mut self) -> (r: Status)
        requires
            old(self)@.wf(),
        ensures
            (final(self)@, r) == old(self)@.run(DEFAULT_STEP_LIMIT as nat),
            final(self)@.wf(),
            r != Status::Running,
    {
        self.execute_bounded(DEFAULT_STEP_LIMIT)
    }

    /// Everything emitted so far, in order.
    pub fn outputs(&self) -> (r: &Vec<OutputEvent>)
        ensures
            r@ == self@.output,
    {
        &self.output
    }
}

} // verus!
