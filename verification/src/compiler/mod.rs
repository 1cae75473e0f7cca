//! The optimizing compiler: inlining decisions, code emission and assembly.
pub mod a64;
pub mod allocation;
pub mod analysis;
pub mod assembler;
pub mod emit;
pub mod emitter;
pub mod exits;
pub mod feedback;
pub mod fields;
pub mod inline;
pub mod ir;
pub mod jasm_assembler;
pub mod lower;
pub mod machine;
pub mod marshal;
pub mod objects;
pub mod operands;
pub mod outcomes;
pub mod regalloc;
pub mod residency;
pub mod selection;
