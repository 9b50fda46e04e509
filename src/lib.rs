pub mod codec;
pub mod instruction;
pub mod machine;

pub use codec::{decode, encode, DecodeError};
pub use instruction::{Fault, Instruction, OutputEvent, Status};
pub use machine::{ControlRegister, VM};
