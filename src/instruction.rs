use vstd::prelude::*;

verus! {

/// One operation of the machine. Register operands are logical
/// general-purpose register indices.
#[derive(Clone, Copy, Debug, PartialEq, Eq, Structural)]
pub enum Instruction {
    /// Copies general-purpose register `src` into `dst`: `MOV(src, dst)`.
    MOV(u64, u64),
    /// Loads an immediate value into `dst`: `MOVI(value, dst)`.
    MOVI(u64, u64),
    /// Pushes the value of a general-purpose register onto the stack.
    PUSH(u64),
    /// Pops the top of the stack into a general-purpose register.
    POP(u64),
    /// Continues at an absolute instruction index.
    JMP(u64),
    /// Emits the value of a general-purpose register to the output channel.
    OUTPUT(u16),
    /// Stops the machine cleanly.
    HALT(),
}

/// What a single `OUTPUT` instruction made observable.
#[derive(Clone, Copy, Debug, PartialEq, Eq, Structural)]
pub struct OutputEvent {
    pub register_index: u16,
    pub value: u64,
}

/// Why execution stopped with an error, or why a state access was refused.
#[derive(Clone, Copy, Debug, PartialEq, Eq, Structural)]
pub enum Fault {
    InstructionPointerOutOfBounds,
    StackOverflow,
    StackUnderflow,
    RegisterIndexOutOfRange,
    StepLimitExceeded,
}

/// The interpreter's state: still running, or one of the two terminal states.
#[derive(Clone, Copy, Debug, PartialEq, Eq, Structural)]
pub enum Status {
    Running,
    Halted,
    Faulted(Fault),
}

} // verus!
