//! Activations: the process stack, its frames, and the activation of blocks.
use vstd::prelude::*;
use crate::interpreter::stack::ProcessStack;
use crate::memory::heap::Heap;
use crate::oops::{MethodOop, Oop};

pub mod blocks;
pub mod stack;

verus! {

/// What the interpreter is executing.
#[derive(Clone, Copy, Debug, PartialEq, Eq, Structural)]
pub struct Regs {
    pub method: Option<MethodOop>,
    pub bci: usize,
}

/// The state that activations change.
#[derive(Debug)]
pub struct VmState {
    pub stack: ProcessStack,
    pub heap: Heap,
    pub nil_obj: Oop,
    pub regs: Regs,
    /// The serial number of the next frame.
    pub next_serial: u32,
}

} // verus!
