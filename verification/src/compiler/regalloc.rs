//! What register allocation decided for a method.
use vstd::prelude::*;
use crate::compiler::ir::{BlockId, VReg};

verus! {

/// A frame slot for a spilled value.
#[derive(Clone, Copy, Debug, PartialEq, Eq, Structural)]
pub struct SpillSlot(pub u16);

/// Where a virtual register lives.
#[derive(Clone, Copy, Debug, PartialEq, Eq, Structural)]
pub enum Assignment {
    Reg(u8),
    Spill(SpillSlot),
}

/// The live range of a virtual register, with its home.
#[derive(Clone, Copy, Debug, PartialEq, Eq, Structural)]
pub struct LiveInterval {
    pub vreg: VReg,
    pub start: u32,
    pub end: u32,
    pub assignment: Option<Assignment>,
    /// A register that mirrors the spill slot.
    pub resident_reg: Option<u8>,
    pub is_fp: bool,
}

/// The result of register allocation. Positions number the instructions one by one, in the order
/// of the blocks.
#[derive(Clone, Debug)]
pub struct RegallocResult {
    pub intervals: Vec<LiveInterval>,
    pub block_order: Vec<BlockId>,
    /// The first position of each block in the order.
    pub block_start_pos: Vec<u32>,
    pub frame_slots: u16,
    pub deopt_nil_init_slots: Vec<SpillSlot>,
    pub safepoint_positions: Vec<u32>,
    /// Positions at which a register's slot is read although its range does not reach there.
    pub extra_oop_live: Vec<(VReg, u32)>,
}

} // verus!
