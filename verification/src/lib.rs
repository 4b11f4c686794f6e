//! A verified bytecode runtime: a tagged value model, a mark-and-sweep
//! collector over an arena of heap objects, and an instruction dispatch
//! loop with an explicit call-frame stack.

pub mod heap;
pub mod opcode;
pub mod value;
pub mod vm;
