//! The instructions of the stack machine.
use vstd::prelude::*;

verus! {

/// One instruction. Literals, associations and send sites are named by their index in the
/// method's tables, jump targets by the index of an instruction.
#[derive(Clone, Copy, Debug, PartialEq, Eq, Structural)]
pub enum Instr {
    PushSelf,
    PushNil,
    PushTrue,
    PushFalse,
    PushSmi(i8),
    PushLiteral(u32),
    PushTemp(u8),
    PushInstvar(u8),
    PushGlobal(u32),
    PushCtxTemp { depth: u8, slot: u8 },
    StoreTempPop(u8),
    StoreInstvarPop(u8),
    StoreGlobalPop(u32),
    StoreCtxTempPop { depth: u8, slot: u8 },
    PushClosure { lit: u32, ncopied: u8 },
    Dup,
    Pop,
    Send { ic: u32, super_: bool },
    JumpFwd(usize),
    JumpBack(usize),
    BrTrueFwd(usize),
    BrFalseFwd(usize),
    ReturnTos,
    ReturnSelf,
    BlockReturnTos,
    NlrTos,
}

} // verus!
