//! The lowering of each instruction.
//!
//! [`Plan`] holds what is fixed for a method. [`St`] is the state that emission threads: the code
//! so far, the recorded sites, and which spill slots are mirrored in a spare register. For each
//! lowering a function of `St` states the exact sequence; the methods of [`Emitter`] perform it.
use vstd::prelude::*;
#[allow(unused_imports)]
use crate::compiler::a64::{encodable, lemma_mnemonics};
use crate::compiler::assembler::{d, imm, mem, w, x, xr, Assembler, Cond, Label, LiteralId, Operand, Reg};
#[allow(unused_imports)]
use crate::compiler::assembler::{
    lemma_open_bound, lemma_open_branch, lemma_open_new, lemma_open_plain, spec_x, spec_xr, Code, Insn, Reloc,
};
use crate::compiler::emit::{EmittedIcSite, SafepointPc};
use crate::compiler::ir::{BlockId, CallSiteInfo, PoolLit, VReg};
use crate::compiler::regalloc::{Assignment, SpillSlot};

verus! {

broadcast use crate::compiler::a64::group_encoding;

/// Trap code of an uncommon trap.
pub const TRAP_UNCOMMON: u32 = 0xDE00;

/// Trap code of a shadow register that disagrees with its slot.
pub const R1A_POISON_BRK: u32 = 0xC1A0;

/// Bits by which an address is shifted to its card.
pub const CARD_SHIFT_IMM: i64 = 9;

/// A resident register to be reloaded after a call, while its range is live.
#[derive(Clone, Copy, Debug, PartialEq, Eq, Structural)]
pub struct Reload {
    pub vreg: u32,
    pub start: u32,
    pub end: u32,
    pub reg: u8,
    pub slot: SpillSlot,
    pub is_fp: bool,
}

/// The addresses that the code calls, as pool constants.
#[derive(Clone, Copy, Debug, PartialEq, Eq, Structural)]
pub struct StubLits {
    pub poll: LiteralId,
    pub must_be_boolean: LiteralId,
    pub alloc_slow: LiteralId,
    pub box_double: LiteralId,
    pub box_float64x2: LiteralId,
    pub box_float32x4: LiteralId,
    pub box_int32x4: LiteralId,
    pub call_primitive: LiteralId,
    pub nlr_originate: LiteralId,
}

/// What is fixed while a method is emitted.
pub struct Plan {
    /// Per virtual register: its home.
    pub assignment: Vec<Option<Assignment>>,
    /// Per virtual register: the register that mirrors its slot.
    pub resident: Vec<Option<u8>>,
    pub reloads: Vec<Reload>,
    /// Per virtual register: its resident register is authoritative, its slot is stored only
    /// before a safepoint.
    pub s2_smi: Vec<bool>,
    pub s2_stores: Vec<Reload>,
    /// Further `(register, position)` pairs at which the slot must be current.
    pub s2_extra: Vec<(u32, u32)>,
    /// Per virtual register: every definition yields a small integer.
    pub known_smi: Vec<bool>,
    /// Per position: the operands proven to be small integers there.
    pub proven_smi_at: Vec<Vec<u32>>,
    /// Per virtual register: the one small integer that all its definitions yield.
    pub const_smi: Vec<Option<i64>>,
    /// Per virtual register: the one pool constant that all its definitions yield.
    pub const_pool: Vec<Option<u32>>,
    /// Per virtual register: holds a raw float.
    pub vreg_is_fp: Vec<bool>,
    pub literal_ids: Vec<LiteralId>,
    /// Per block of the order: its label.
    pub labels: Vec<Label>,
    /// Per block: it is part of the order.
    pub in_order: Vec<bool>,
    pub epilogue: Label,
    pub true_lit: PoolLit,
    pub false_lit: PoolLit,
    pub nil_lit: PoolLit,
    pub mark_slots_lit: PoolLit,
    pub mark_double_lit: PoolLit,
    pub double_klass_lit: PoolLit,
    pub float64x2_klass_lit: PoolLit,
    pub float32x4_klass_lit: PoolLit,
    pub int32x4_klass_lit: PoolLit,
    pub stubs: StubLits,
    /// The leaf door's runtime routine and the primitive itself.
    pub leaf_prim_lits: Option<(LiteralId, LiteralId)>,
    pub call_sites: Vec<CallSiteInfo>,
    pub frame_slots: u16,
    /// Registers that nothing else uses in this method.
    pub r1a_free: Vec<u8>,
    /// Per position: a later read of a slot touched here can be served from a register.
    pub r1a_profitable: Vec<bool>,
    /// 0: off, 1: on, 2: on with poisoned slots.
    pub s2_mode: u8,
    /// 0: off, 1: on, 2: on with every hit checked.
    pub r1a_mode: u8,
    pub resident_across_calls: bool,
}

impl Plan {
    /// A virtual register that has a home.
    pub open spec fn has(self, v: VReg) -> bool {
        v.0 < self.assignment@.len() && self.assignment@[v.0 as int] is Some
    }

    /// The home of a virtual register.
    pub open spec fn home(self, v: VReg) -> Assignment {
        self.assignment@[v.0 as int]->0
    }

    /// A block that is emitted.
    pub open spec fn block(self, b: BlockId) -> bool {
        b.0 < self.labels@.len() && self.in_order@[b.0 as int]
    }

    /// The labels that are bound in the end: those of the blocks and of the epilogue.
    #[verifier::opaque]
    pub open spec fn globals(self) -> Set<u32> {
        Set::new(
            |l: u32| l == self.epilogue.0 || exists|b: u32| #[trigger] self.block(BlockId(b)) && self.labels@[b as int].0 == l,
        )
    }

    /// Every handle names a constant of a pool of `n`.
    pub open spec fn ids_ok(self, n: nat) -> bool {
        &&& forall|i: int| 0 <= i < self.literal_ids@.len() ==> (#[trigger] self.literal_ids@[i]).0 < n
        &&& self.stubs.poll.0 < n
        &&& self.stubs.must_be_boolean.0 < n
        &&& self.stubs.alloc_slow.0 < n
        &&& self.stubs.box_double.0 < n
        &&& self.stubs.box_float64x2.0 < n
        &&& self.stubs.box_float32x4.0 < n
        &&& self.stubs.box_int32x4.0 < n
        &&& self.stubs.call_primitive.0 < n
        &&& self.stubs.nlr_originate.0 < n
        &&& self.leaf_prim_lits matches Some((a, b)) ==> a.0 < n && b.0 < n
    }

    /// A constant of the method.
    pub open spec fn lit_ok(self, l: PoolLit) -> bool {
        l.0 < self.literal_ids@.len()
    }

    /// The handle of a constant.
    pub open spec fn lit(self, l: PoolLit) -> LiteralId {
        self.literal_ids@[l.0 as int]
    }

    /// A position at which the slot that is touched is read again.
    pub open spec fn profitable(self, pos: u32) -> bool {
        pos < self.r1a_profitable@.len() && self.r1a_profitable@[pos as int]
    }

    /// Whether an operand needs no tag test at a position.
    pub open spec fn smi_ok(self, v: VReg, pos: u32) -> bool {
        self.known_smi@[v.0 as int] || (pos < self.proven_smi_at@.len() && self.proven_smi_at@[pos as int]@.contains(
            v.0,
        ))
    }

    /// The parts agree in size, registers can be named and slots lie in the frame.
    pub open spec fn ok(self) -> bool {
        let n = self.assignment@.len();
        &&& self.resident@.len() == n
        &&& self.s2_smi@.len() == n
        &&& self.known_smi@.len() == n
        &&& self.const_smi@.len() == n
        &&& self.const_pool@.len() == n
        &&& self.vreg_is_fp@.len() == n
        &&& self.in_order@.len() == self.labels@.len()
        &&& self.frame_slots <= 511
        &&& forall|v: int|
            0 <= v < n ==> (match #[trigger] self.assignment@[v] {
                Some(Assignment::Reg(r)) => r < 31,
                Some(Assignment::Spill(s)) => s.0 < self.frame_slots,
                None => true,
            })
        &&& forall|v: int| 0 <= v < n ==> (#[trigger] self.resident@[v] matches Some(r) ==> r < 31)
        &&& forall|v: int|
            0 <= v < n ==> (#[trigger] self.const_pool@[v] matches Some(k) ==> k < self.literal_ids@.len())
        &&& forall|i: int| 0 <= i < self.reloads@.len() ==> self.reload_ok(#[trigger] self.reloads@[i])
        &&& forall|i: int| 0 <= i < self.s2_stores@.len() ==> self.reload_ok(#[trigger] self.s2_stores@[i])
        &&& forall|i: int| 0 <= i < self.r1a_free@.len() ==> #[trigger] self.r1a_free@[i] < 31
        &&& self.lit_ok(self.true_lit)
        &&& self.lit_ok(self.false_lit)
        &&& self.lit_ok(self.nil_lit)
        &&& self.lit_ok(self.mark_slots_lit)
        &&& self.lit_ok(self.mark_double_lit)
        &&& self.lit_ok(self.double_klass_lit)
        &&& self.lit_ok(self.float64x2_klass_lit)
        &&& self.lit_ok(self.float32x4_klass_lit)
        &&& self.lit_ok(self.int32x4_klass_lit)
    }

    /// A reload names a register and a slot of the frame.
    pub open spec fn reload_ok(self, r: Reload) -> bool {
        &&& r.vreg < self.assignment@.len()
        &&& r.reg < 31
        &&& r.slot.0 < self.frame_slots
    }
}

/// The state that emission threads.
#[verifier::ext_equal]
pub struct St {
    pub code: Code,
    /// The current instruction's position.
    pub pos: u32,
    /// The current block's bytecode index.
    pub bci: usize,
    pub safepoints: Seq<SafepointPc>,
    pub ic_sites: Seq<EmittedIcSite>,
    /// Per slot: the spare register that holds its value.
    pub shadow: Seq<Option<u8>>,
    /// Per register: the slot it mirrors.
    pub of_reg: Seq<Option<u16>>,
    /// Spare registers that the current instruction holds as operands.
    pub hits: Seq<u8>,
    /// Inside an instruction that may move objects.
    pub in_sp: bool,
}

/// A plain 64-bit general register.
pub open spec fn good(r: Reg) -> bool {
    r.class == crate::compiler::a64::RegClass::X && !r.is_sp && r.num < 31
}

/// A small integer with its tag.
pub open spec fn tagged(v: i64) -> u64 {
    (v << 2) as u64
}

/// A group of sixteen bits.
pub open spec fn group16(v: u64, shift: u64) -> i64 {
    ((v >> shift) & 0xFFFF) as i64
}

/// The offset of a slot from the frame pointer.
pub open spec fn spill_off(slot: SpillSlot) -> i64 {
    (-8 * (slot.0 + 1)) as i64
}

/// The word of a trap instruction.
pub open spec fn brk_word(code: u32) -> u32 {
    0xD420_0000u32 | (code << 5)
}

/// The marker value that stands in for a slot which is not current.
pub open spec fn poison(slot: SpillSlot) -> u64 {
    0xC0DE_0000_0000u64 | ((slot.0 as u64) << 4)
}

impl St {
    pub open spec fn i0(self, m: Seq<char>) -> St {
        St { code: self.code.op(m, Seq::empty()), ..self }
    }

    pub open spec fn i1(self, m: Seq<char>, a: Operand) -> St {
        St { code: self.code.op(m, seq![a]), ..self }
    }

    pub open spec fn i2(self, m: Seq<char>, a: Operand, b: Operand) -> St {
        St { code: self.code.op(m, seq![a, b]), ..self }
    }

    pub open spec fn i3(self, m: Seq<char>, a: Operand, b: Operand, c: Operand) -> St {
        St { code: self.code.op(m, seq![a, b, c]), ..self }
    }

    pub open spec fn i4(self, m: Seq<char>, a: Operand, b: Operand, c: Operand, e: Operand) -> St {
        St { code: self.code.op(m, seq![a, b, c, e]), ..self }
    }

    pub open spec fn raw(self, word: u32) -> St {
        St { code: self.code.with(Insn::Raw(word)), ..self }
    }

    pub open spec fn lab(self) -> St {
        St { code: self.code.with_label(), ..self }
    }

    pub open spec fn bind(self, l: Label) -> St {
        St { code: self.code.bound(l), ..self }
    }

    pub open spec fn b(self, l: Label) -> St {
        St { code: self.code.with(Insn::B(l)), ..self }
    }

    pub open spec fn bc(self, c: Cond, l: Label) -> St {
        St { code: self.code.with(Insn::BCond(c, l)), ..self }
    }

    pub open spec fn cbz(self, r: Reg, l: Label) -> St {
        St { code: self.code.with(Insn::Cbz(r, l)), ..self }
    }

    pub open spec fn ldl(self, r: Reg, id: LiteralId) -> St {
        St { code: self.code.with(Insn::LdrLit(r, id)), ..self }
    }

    pub open spec fn far(self, id: LiteralId) -> St {
        St { code: self.code.far_call(id), ..self }
    }

    /// A safepoint recorded at the current offset.
    pub open spec fn safepoint(self) -> St {
        St {
            safepoints: self.safepoints.push(
                SafepointPc { pc_off: self.code.offset(), bci: self.bci, position: self.pos },
            ),
            ..self
        }
    }

    /// One spill-slot access: direct while the offset fits nine signed bits, else through an
    /// address in the scratch register.
    pub open spec fn spill_access_via(self, m: Seq<char>, reg: Operand, slot: SpillSlot, scratch: u8) -> St {
        let off = spill_off(slot);
        if off >= -256 {
            self.i2(m, reg, mem(29, off))
        } else {
            self.i3("sub"@, x(scratch), x(29), imm((-off) as i64)).i2(m, reg, mem(scratch, 0))
        }
    }

    pub open spec fn spill_access(self, m: Seq<char>, reg: Operand, slot: SpillSlot) -> St {
        self.spill_access_via(m, reg, slot, 19)
    }

    /// An arbitrary constant: one `movz`, then a `movk` for each further group that is not zero.
    pub open spec fn mov64(self, dst: Reg, v: u64) -> St {
        let s0 = self.i2("movz"@, Operand::Reg(dst), imm(group16(v, 0)));
        let s1 = s0.movk(dst, group16(v, 16), 16);
        let s2 = s1.movk(dst, group16(v, 32), 32);
        s2.movk(dst, group16(v, 48), 48)
    }

    pub open spec fn movk(self, dst: Reg, g: i64, shift: u32) -> St {
        if g != 0 {
            self.i2("movk"@, Operand::Reg(dst), Operand::ImmShift(g, shift))
        } else {
            self
        }
    }

    /// No slot is mirrored any more.
    pub open spec fn clear(self) -> St {
        St {
            shadow: Seq::new(self.shadow.len(), |i: int| None::<u8>),
            of_reg: Seq::new(self.of_reg.len(), |i: int| None::<u16>),
            ..self
        }
    }

    /// Mirrors a slot's value, which `from` holds, in the slot's spare register. Declined where
    /// the current instruction holds that register as an operand, and inside an instruction that
    /// may move objects.
    pub open spec fn seed(self, p: Plan, slot: SpillSlot, from: Reg) -> St {
        match shadow_reg(p, slot) {
            None => self,
            Some(sr) => if self.hits.contains(sr) || self.in_sp {
                self
            } else {
                let shadow = match self.of_reg[sr as int] {
                    Some(o) => if o != slot.0 {
                        self.shadow.update(o as int, None)
                    } else {
                        self.shadow
                    },
                    None => self.shadow,
                };
                let s = St {
                    of_reg: self.of_reg.update(sr as int, Some(slot.0)),
                    shadow: shadow.update(slot.0 as int, Some(sr)),
                    ..self
                };
                if from.num != sr {
                    s.i2("mov"@, x(sr), Operand::Reg(from))
                } else {
                    s
                }
            },
        }
    }

    /// Serves a slot from the register that mirrors it; in checking mode the slot is compared.
    pub open spec fn serve(self, p: Plan, slot: SpillSlot, sr: u8, scratch: u8) -> St {
        let s = if p.r1a_mode == 2 {
            let s1 = self.spill_access("ldr"@, x(scratch), slot).i2("cmp"@, x(scratch), x(sr));
            let ok = s1.code.next_label();
            s1.lab().bc(Cond::Eq, ok).raw(brk_word(R1A_POISON_BRK)).bind(ok)
        } else {
            self
        };
        if s.hits.contains(sr) {
            s
        } else {
            St { hits: s.hits.push(sr), ..s }
        }
    }

    /// A value as an operand: its register, or a load into the scratch register.
    pub open spec fn resolve(self, p: Plan, v: VReg, scratch: u8) -> (Reg, St) {
        match p.resident@[v.0 as int] {
            Some(rr) => (xr(rr), self),
            None => match p.home(v) {
                Assignment::Reg(r) => (xr(r), self),
                Assignment::Spill(slot) => match p.const_smi@[v.0 as int] {
                    Some(cv) => (xr(scratch), self.mov64(xr(scratch), tagged(cv))),
                    None => match p.const_pool@[v.0 as int] {
                        Some(k) => (xr(scratch), self.ldl(xr(scratch), p.literal_ids@[k as int])),
                        None => match self.shadow[slot.0 as int] {
                            Some(sr) => if p.r1a_mode != 0 {
                                (xr(sr), self.serve(p, slot, sr, scratch))
                            } else {
                                (xr(scratch), self.load_slot(p, slot, scratch))
                            },
                            None => (xr(scratch), self.load_slot(p, slot, scratch)),
                        },
                    },
                },
            },
        }
    }

    /// Loads a slot, and mirrors it where that pays.
    pub open spec fn load_slot(self, p: Plan, slot: SpillSlot, scratch: u8) -> St {
        let s = self.spill_access("ldr"@, x(scratch), slot);
        if p.r1a_mode != 0 && p.profitable(self.pos) {
            s.seed(p, slot, xr(scratch))
        } else {
            s
        }
    }

    /// Mirrors a definition in the resident register.
    pub open spec fn refresh(self, p: Plan, dst: VReg, from: Reg) -> St {
        match p.resident@[dst.0 as int] {
            Some(rr) => if rr != from.num {
                self.i2("mov"@, x(rr), Operand::Reg(from))
            } else {
                self
            },
            None => self,
        }
    }

    /// Puts a computed value into its home.
    pub open spec fn commit(self, p: Plan, dst: VReg, from: Reg) -> St {
        if p.const_smi@[dst.0 as int] is Some || p.const_pool@[dst.0 as int] is Some {
            self.refresh(p, dst, from)
        } else {
            match p.home(dst) {
                Assignment::Reg(_) => self.refresh(p, dst, from),
                Assignment::Spill(slot) => if !p.s2_smi@[dst.0 as int] {
                    let s = self.spill_access("str"@, Operand::Reg(from), slot);
                    let s1 = if p.r1a_mode != 0 && p.resident@[dst.0 as int] is None && p.profitable(self.pos) {
                        s.seed(p, slot, from)
                    } else {
                        s
                    };
                    s1.refresh(p, dst, from)
                } else if p.s2_mode == 2 {
                    self.refresh(p, dst, from).mov64(xr(17), poison(slot)).spill_access("str"@, x(17), slot)
                } else {
                    self.refresh(p, dst, from)
                },
            }
        }
    }

    /// Reloads one resident register.
    pub open spec fn reload_one(self, p: Plan, r: Reload) -> St {
        if r.is_fp {
            self.fp_spill_access("ldr"@, r.reg, r.slot)
        } else {
            match p.const_smi@[r.vreg as int] {
                Some(cv) => self.mov64(xr(r.reg), tagged(cv)),
                None => match p.const_pool@[r.vreg as int] {
                    Some(k) => self.ldl(xr(r.reg), p.literal_ids@[k as int]),
                    None => self.spill_access("ldr"@, x(r.reg), r.slot),
                },
            }
        }
    }

    /// Reloads the first `k` residents that are live at a position, but for one register's.
    pub open spec fn reloads_upto(self, p: Plan, pos: u32, skip: Option<VReg>, k: int) -> St
        decreases k,
    {
        if k <= 0 {
            self
        } else {
            let prev = self.reloads_upto(p, pos, skip, k - 1);
            let r = p.reloads@[k - 1];
            if r.start <= pos < r.end && skip != Some(VReg(r.vreg)) {
                prev.reload_one(p, r)
            } else {
                prev
            }
        }
    }

    pub open spec fn reloads_at(self, p: Plan, pos: u32, skip: Option<VReg>) -> St {
        self.reloads_upto(p, pos, skip, p.reloads@.len() as int)
    }

    /// Stores the authoritative registers that are live here to their slots.
    pub open spec fn s2_stores_upto(self, p: Plan, k: int) -> St
        decreases k,
    {
        if k <= 0 {
            self
        } else {
            let prev = self.s2_stores_upto(p, k - 1);
            let r = p.s2_stores@[k - 1];
            if (r.start <= self.pos < r.end) || p.s2_extra@.contains((r.vreg, self.pos)) {
                prev.spill_access("str"@, x(r.reg), r.slot)
            } else {
                prev
            }
        }
    }

    pub open spec fn s2_stores(self, p: Plan) -> St {
        self.s2_stores_upto(p, p.s2_stores@.len() as int)
    }

    /// Tag tests of two operands, each where it is not known to be a small integer.
    pub open spec fn tag_check(self, p: Plan, a: VReg, ra: Reg, b: VReg, rb: Reg, fail: BlockId) -> St {
        let l = p.labels@[fail.0 as int];
        let s = if p.smi_ok(a, self.pos) {
            self
        } else {
            self.i2("tst"@, Operand::Reg(ra), imm(3)).bc(Cond::Ne, l)
        };
        if p.smi_ok(b, self.pos) {
            s
        } else {
            s.i2("tst"@, Operand::Reg(rb), imm(3)).bc(Cond::Ne, l)
        }
    }

    /// A float slot access.
    pub open spec fn fp_spill_access(self, m: Seq<char>, dreg: u8, slot: SpillSlot) -> St {
        self.spill_access_via(m, d(dreg), slot, 16)
    }

    /// A float as an operand.
    pub open spec fn resolve_fp(self, p: Plan, v: VReg, scratch: u8) -> (u8, St) {
        match p.resident@[v.0 as int] {
            Some(rr) => (rr, self),
            None => match p.home(v) {
                Assignment::Reg(r) => (r, self),
                Assignment::Spill(slot) => (scratch, self.fp_spill_access("ldr"@, scratch, slot)),
            },
        }
    }

    /// Puts a computed float into its home.
    pub open spec fn commit_fp(self, p: Plan, dst: VReg, from: u8) -> St {
        let s = match p.home(dst) {
            Assignment::Spill(slot) => self.fp_spill_access("str"@, from, slot),
            Assignment::Reg(_) => self,
        };
        match p.resident@[dst.0 as int] {
            Some(rr) => if rr != from {
                s.i2("fmov"@, d(rr), d(from))
            } else {
                s
            },
            None => s,
        }
    }
}

/// The spare register of a slot.
pub open spec fn shadow_reg(p: Plan, slot: SpillSlot) -> Option<u8> {
    if p.r1a_free@.len() == 0 {
        None
    } else {
        Some(p.r1a_free@[slot.0 as int % p.r1a_free@.len() as int])
    }
}

/// The mirrors agree: a mirrored slot is held by its own spare register, which mirrors that slot.
#[verifier::opaque]
pub open spec fn mirrors(p: Plan, shadow: Seq<Option<u8>>, of_reg: Seq<Option<u16>>) -> bool {
    &&& forall|i: int|
        0 <= i < shadow.len() ==> (#[trigger] shadow[i] matches Some(r) ==> shadow_reg(p, SpillSlot(i as u16)) == Some(
            r,
        ) && r < of_reg.len() && of_reg[r as int] == Some(i as u16))
    &&& forall|r: int|
        0 <= r < of_reg.len() ==> (#[trigger] of_reg[r] matches Some(i) ==> i < shadow.len() && shadow[i as int] == Some(
            r as u8,
        ))
}

/// No mirrors agree.
pub(crate) proof fn lemma_no_mirrors(p: Plan, shadow: Seq<Option<u8>>, of_reg: Seq<Option<u16>>)
    requires
        forall|i: int| 0 <= i < shadow.len() ==> #[trigger] shadow[i] is None,
        forall|r: int| 0 <= r < of_reg.len() ==> #[trigger] of_reg[r] is None,
    ensures
        mirrors(p, shadow, of_reg),
{
    reveal(mirrors);
}

/// Two slots are never mirrored by one register.
pub proof fn law_mirrors_are_exclusive<'a, A: Assembler>(e: Emitter<'a, A>, i: SpillSlot, k: SpillSlot, r: u8)
    requires
        e.ok(),
        i.0 < e.shadow@.len(),
        k.0 < e.shadow@.len(),
        e.shadow@[i.0 as int] == Some(r),
        e.shadow@[k.0 as int] == Some(r),
    ensures
        i == k,
        e.p.r1a_free@.contains(r),
{
    reveal(mirrors);
    let n = e.p.r1a_free@.len() as int;
    assert(shadow_reg(*e.p, SpillSlot(i.0)) == Some(r));
    assert(e.p.r1a_free@[i.0 as int % n] == r);
}

/// With mirroring off, what is mirrored neither changes nor matters: operands are loaded from their
/// slots and results stored to them.
pub proof fn law_mirroring_off(s: St, t: St, p: Plan, v: VReg, scratch: u8, from: Reg)
    requires
        p.r1a_mode == 0,
        t == (St { shadow: t.shadow, of_reg: t.of_reg, hits: t.hits, ..s }),
    ensures
        s.resolve(p, v, scratch).0 == t.resolve(p, v, scratch).0,
        s.resolve(p, v, scratch).1.code == t.resolve(p, v, scratch).1.code,
        s.resolve(p, v, scratch).1.shadow == s.shadow,
        s.commit(p, v, from).code == t.commit(p, v, from).code,
        s.commit(p, v, from).shadow == s.shadow,
{
}

/// Nothing is mirrored anew inside an instruction that may move objects, nor in a register that
/// the current instruction holds as an operand.
pub proof fn law_mirroring_declined(s: St, p: Plan, slot: SpillSlot, from: Reg)
    requires
        s.in_sp || (shadow_reg(p, slot) matches Some(r) && s.hits.contains(r)),
    ensures
        s.seed(p, slot, from) == s,
{
}

/// Where an instruction writes: the register, or `x16` for a spilled value.
pub open spec fn dest(p: Plan, dst: VReg) -> Reg {
    match p.home(dst) {
        Assignment::Reg(r) => xr(r),
        Assignment::Spill(_) => xr(16),
    }
}

/// As [`dest`], but straight into the resident register where there is one.
pub open spec fn dest_direct(p: Plan, dst: VReg) -> Reg {
    match p.resident@[dst.0 as int] {
        Some(rr) => xr(rr),
        None => dest(p, dst),
    }
}

/// Where a float instruction writes.
pub open spec fn dest_fp(p: Plan, dst: VReg) -> u8 {
    match p.home(dst) {
        Assignment::Reg(r) => r,
        Assignment::Spill(_) => 16,
    }
}

/// Emission in progress.
pub struct Emitter<'a, A: Assembler> {
    pub p: &'a Plan,
    pub out: &'a mut A,
    pub pos: u32,
    pub bci: usize,
    pub safepoints: Vec<SafepointPc>,
    pub ic_sites: Vec<EmittedIcSite>,
    pub shadow: Vec<Option<u8>>,
    pub of_reg: Vec<Option<u16>>,
    pub hits: Vec<u8>,
    pub in_sp: bool,
}

/// `b` is `a` after a step to state `s`: same plan, same pool, no instruction and no label lost.
pub open spec fn advanced<'a, A: Assembler>(a: Emitter<'a, A>, b: Emitter<'a, A>, s: St) -> bool {
    &&& b.ok()
    &&& b.p == a.p
    &&& b.st() == s
    &&& s.code.insns.len() >= a.st().code.insns.len()
    &&& s.code.labels.len() >= a.st().code.labels.len()
    &&& s.code.pool == a.st().code.pool
    &&& s.code.finished == a.st().code.finished
    &&& forall|l: u32| a.st().code.is_bound(l) ==> #[trigger] s.code.is_bound(l)
}

/// A step that makes and records no send.
pub open spec fn stepped<'a, A: Assembler>(a: Emitter<'a, A>, b: Emitter<'a, A>, s: St) -> bool {
    advanced(a, b, s) && s.ic_sites == a.st().ic_sites && s.code.sites() == a.st().code.sites()
}

/// The records are those of the call sites from the `base`-th on, one by one.
pub open spec fn recorded(log: Seq<EmittedIcSite>, sites: Seq<Reloc>, base: int) -> bool {
    &&& 0 <= base
    &&& sites.len() == base + log.len()
    &&& forall|i: int| 0 <= i < log.len() ==> (#[trigger] log[i]).off == sites[base + i].offset
}

/// What is recorded of the call sites stays so.
pub open spec fn keeps_records(a: St, s: St) -> bool {
    forall|base: int|
        recorded(a.ic_sites, a.code.sites(), base) ==> #[trigger] recorded(s.ic_sites, s.code.sites(), base)
}

/// The labels left open are those open before and those of blocks and of the epilogue.
pub open spec fn closes<'a, A: Assembler>(a: Emitter<'a, A>, s: St) -> bool {
    s.code.open_labels().subset_of(a.st().code.open_labels().union(a.p.globals()))
}

/// A step that records no send and leaves no label open but those of blocks and of the epilogue.
pub open spec fn next<'a, A: Assembler>(a: Emitter<'a, A>, b: Emitter<'a, A>, s: St) -> bool {
    stepped(a, b, s) && closes(a, s)
}

/// A step that may record sends.
pub open spec fn reached<'a, A: Assembler>(a: Emitter<'a, A>, b: Emitter<'a, A>, s: St) -> bool {
    advanced(a, b, s) && closes(a, s) && keeps_records(a.st(), s)
}

/// The epilogue's label is bound in the end.
pub(crate) proof fn lemma_epilogue_global(p: Plan)
    ensures
        p.globals().contains(p.epilogue.0),
{
    reveal(Plan::globals);
}

pub(crate) proof fn lemma_group16(v: u64)
    ensures
        0 <= group16(v, 0) < 65536,
        0 <= group16(v, 16) < 65536,
        0 <= group16(v, 32) < 65536,
        0 <= group16(v, 48) < 65536,
{
    assert((v >> 0) & 0xFFFF <= 0xFFFF && (v >> 16) & 0xFFFF <= 0xFFFF && (v >> 32) & 0xFFFF <= 0xFFFF && (v >> 48) & 0xFFFF
        <= 0xFFFF) by (bit_vector);
}

impl<'a, A: Assembler> Emitter<'a, A> {
    /// The state, as the contracts see it.
    pub open spec fn st(&self) -> St {
        St {
            code: self.out.code(),
            pos: self.pos,
            bci: self.bci,
            safepoints: self.safepoints@,
            ic_sites: self.ic_sites@,
            shadow: self.shadow@,
            of_reg: self.of_reg@,
            hits: self.hits@,
            in_sp: self.in_sp,
        }
    }

    /// The assembler and the plan are in order, and the mirrors name registers and slots.
    pub open spec fn ok(&self) -> bool {
        &&& self.out.ok()
        &&& self.p.ok()
        &&& self.out.code().literals_ok()
        &&& self.p.ids_ok(self.out.code().pool.len())
        &&& self.shadow@.len() == self.p.frame_slots
        &&& self.of_reg@.len() == 32
        &&& forall|i: int| 0 <= i < self.shadow@.len() ==> (#[trigger] self.shadow@[i] matches Some(r) ==> r < 31)
        &&& forall|i: int|
            0 <= i < 32 ==> (#[trigger] self.of_reg@[i] matches Some(s) ==> s < self.p.frame_slots)
        &&& mirrors(*self.p, self.shadow@, self.of_reg@)
    }

    pub(crate) fn i0(&mut self, m: &str)
        requires
            old(self).ok(),
            encodable(m@, Seq::empty()),
        ensures
            *final(final(self).out) == *final(old(self).out),
            next(*old(self), *final(self), old(self).st().i0(m@)),
    {
        reveal(Code::literals_ok);
        proof {
            lemma_open_plain(self.st().code, Insn::Op(m@, Seq::empty()));
        }
        let ops: [Operand; 0] = [];
        assert(ops@ =~= Seq::empty());
        self.out.emit(m, &ops);
    }

    pub(crate) fn i1(&mut self, m: &str, a: Operand)
        requires
            old(self).ok(),
            encodable(m@, seq![a]),
        ensures
            *final(final(self).out) == *final(old(self).out),
            next(*old(self), *final(self), old(self).st().i1(m@, a)),
    {
        reveal(Code::literals_ok);
        proof {
            lemma_open_plain(self.st().code, Insn::Op(m@, seq![a]));
        }
        let ops: [Operand; 1] = [a];
        assert(ops@ =~= seq![a]);
        self.out.emit(m, &ops);
    }

    pub(crate) fn i2(&mut self, m: &str, a: Operand, b: Operand)
        requires
            old(self).ok(),
            encodable(m@, seq![a, b]),
        ensures
            *final(final(self).out) == *final(old(self).out),
            next(*old(self), *final(self), old(self).st().i2(m@, a, b)),
    {
        reveal(Code::literals_ok);
        proof {
            lemma_open_plain(self.st().code, Insn::Op(m@, seq![a, b]));
        }
        let ops: [Operand; 2] = [a, b];
        assert(ops@ =~= seq![a, b]);
        self.out.emit(m, &ops);
    }

    pub(crate) fn i3(&mut self, m: &str, a: Operand, b: Operand, c: Operand)
        requires
            old(self).ok(),
            encodable(m@, seq![a, b, c]),
        ensures
            *final(final(self).out) == *final(old(self).out),
            next(*old(self), *final(self), old(self).st().i3(m@, a, b, c)),
    {
        reveal(Code::literals_ok);
        proof {
            lemma_open_plain(self.st().code, Insn::Op(m@, seq![a, b, c]));
        }
        let ops: [Operand; 3] = [a, b, c];
        assert(ops@ =~= seq![a, b, c]);
        self.out.emit(m, &ops);
    }

    pub(crate) fn i4(&mut self, m: &str, a: Operand, b: Operand, c: Operand, e: Operand)
        requires
            old(self).ok(),
            encodable(m@, seq![a, b, c, e]),
        ensures
            *final(final(self).out) == *final(old(self).out),
            next(*old(self), *final(self), old(self).st().i4(m@, a, b, c, e)),
    {
        reveal(Code::literals_ok);
        proof {
            lemma_open_plain(self.st().code, Insn::Op(m@, seq![a, b, c, e]));
        }
        let ops: [Operand; 4] = [a, b, c, e];
        assert(ops@ =~= seq![a, b, c, e]);
        self.out.emit(m, &ops);
    }

    pub(crate) fn raw(&mut self, word: u32)
        requires
            old(self).ok(),
        ensures
            *final(final(self).out) == *final(old(self).out),
            next(*old(self), *final(self), old(self).st().raw(word)),
    {
        reveal(Code::literals_ok);
        proof {
            lemma_open_plain(self.st().code, Insn::Raw(word));
        }
        self.out.emit_u32(word);
    }

    pub(crate) fn lab(&mut self) -> (l: Label)
        requires
            old(self).ok(),
        ensures
            *final(final(self).out) == *final(old(self).out),
            stepped(*old(self), *final(self), old(self).st().lab()),
            final(self).st().code.open_labels().subset_of(old(self).st().code.open_labels().insert(l.0)),
            l == old(self).st().code.next_label(),
            l.0 < final(self).st().code.labels.len(),
    {
        reveal(Code::literals_ok);
        proof {
            lemma_open_new(self.st().code);
        }
        self.out.new_label()
    }

    pub(crate) fn bind(&mut self, l: Label)
        requires
            old(self).ok(),
            l.0 < old(self).st().code.labels.len(),
        ensures
            *final(final(self).out) == *final(old(self).out),
            next(*old(self), *final(self), old(self).st().bind(l)),
            final(self).st().code.open_labels() == old(self).st().code.open_labels().remove(l.0),
    {
        reveal(Code::literals_ok);
        proof {
            lemma_open_bound(self.st().code, l);
        }
        self.out.bind(l);
    }

    pub(crate) fn b(&mut self, l: Label)
        requires
            old(self).ok(),
        ensures
            *final(final(self).out) == *final(old(self).out),
            stepped(*old(self), *final(self), old(self).st().b(l)),
            final(self).st().code.open_labels().subset_of(old(self).st().code.open_labels().insert(l.0)),
    {
        reveal(Code::literals_ok);
        proof {
            lemma_open_branch(self.st().code, Insn::B(l), l);
        }
        self.out.b(l);
    }

    pub(crate) fn bc(&mut self, c: Cond, l: Label)
        requires
            old(self).ok(),
        ensures
            *final(final(self).out) == *final(old(self).out),
            stepped(*old(self), *final(self), old(self).st().bc(c, l)),
            final(self).st().code.open_labels().subset_of(old(self).st().code.open_labels().insert(l.0)),
    {
        reveal(Code::literals_ok);
        proof {
            lemma_open_branch(self.st().code, Insn::BCond(c, l), l);
        }
        self.out.b_cond(c, l);
    }

    pub(crate) fn cbz(&mut self, r: Reg, l: Label)
        requires
            old(self).ok(),
            good(r),
        ensures
            *final(final(self).out) == *final(old(self).out),
            stepped(*old(self), *final(self), old(self).st().cbz(r, l)),
            final(self).st().code.open_labels().subset_of(old(self).st().code.open_labels().insert(l.0)),
    {
        reveal(Code::literals_ok);
        proof {
            lemma_open_branch(self.st().code, Insn::Cbz(r, l), l);
        }
        self.out.cbz(r, l);
    }

    pub(crate) fn ldl(&mut self, r: Reg, id: LiteralId)
        requires
            old(self).ok(),
            good(r),
            id.0 < old(self).st().code.pool.len(),
        ensures
            *final(final(self).out) == *final(old(self).out),
            next(*old(self), *final(self), old(self).st().ldl(r, id)),
    {
        reveal(Code::literals_ok);
        proof {
            lemma_open_plain(self.st().code, Insn::LdrLit(r, id));
        }
        self.out.ldr_literal(r, id);
    }

    pub(crate) fn far(&mut self, id: LiteralId)
        requires
            old(self).ok(),
            id.0 < old(self).st().code.pool.len(),
        ensures
            *final(final(self).out) == *final(old(self).out),
            next(*old(self), *final(self), old(self).st().far(id)),
    {
        reveal(Code::literals_ok);
        proof {
            lemma_open_plain(self.st().code, Insn::LdrLit(spec_xr(16), id));
            lemma_open_plain(self.st().code.with(Insn::LdrLit(spec_xr(16), id)), Insn::Op("blr"@, seq![spec_x(16)]));
        }
        self.out.call_far(id);
    }

    pub(crate) fn safepoint(&mut self)
        requires
            old(self).ok(),
        ensures
            *final(final(self).out) == *final(old(self).out),
            next(*old(self), *final(self), old(self).st().safepoint()),
    {
        reveal(Code::literals_ok);
        let pc_off: u32 = self.out.offset();
        let s = SafepointPc { pc_off, bci: self.bci, position: self.pos };
        self.safepoints.push(s);
    }

    pub(crate) fn assignment_of(&self, v: VReg) -> (a: Assignment)
        requires
            self.ok(),
            self.p.has(v),
        ensures
            a == self.p.home(v),
            a matches Assignment::Reg(r) ==> r < 31,
            a matches Assignment::Spill(s) ==> s.0 < self.p.frame_slots,
    {
        reveal(Code::literals_ok);
        match self.p.assignment[v.0 as usize] {
            Some(a) => a,
            None => Assignment::Reg(0),
        }
    }

    pub(crate) fn block_label(&self, b: BlockId) -> (l: Label)
        requires
            self.p.block(b),
        ensures
            l == self.p.labels@[b.0 as int],
            self.p.globals().contains(l.0),
    {
        reveal(Code::literals_ok);
        reveal(Plan::globals);
        assert(self.p.block(BlockId(b.0)));
        self.p.labels[b.0 as usize]
    }

    pub(crate) fn lit(&self, l: PoolLit) -> (id: LiteralId)
        requires
            self.ok(),
            self.p.lit_ok(l),
        ensures
            id == self.p.lit(l),
            id.0 < self.st().code.pool.len(),
    {
        reveal(Code::literals_ok);
        self.p.literal_ids[l.0 as usize]
    }

    /// One spill-slot access with a chosen address scratch.
    pub(crate) fn emit_spill_access_via(&mut self, m: &str, reg: Operand, slot: SpillSlot, scratch: u8)
        requires
            old(self).ok(),
            m@ == "ldr"@ || m@ == "str"@,
            reg matches Operand::Reg(r) && r.num < 32 && !r.is_sp && (r.class is X || r.class is D),
            slot.0 < old(self).p.frame_slots,
            scratch < 31,
        ensures
            *final(final(self).out) == *final(old(self).out),
            next(*old(self), *final(self), old(self).st().spill_access_via(m@, reg, slot, scratch)),
    {
        reveal(Code::literals_ok);
        proof {
            lemma_mnemonics();
        }
        let off: i64 = spill_offset(slot);
        if off >= -256 {
            self.i2(m, reg, mem(29, off));
        } else {
            self.i3("sub", x(scratch), x(29), imm(-off));
            self.i2(m, reg, mem(scratch, 0));
        }
    }

    pub(crate) fn emit_spill_access(&mut self, m: &str, reg: Operand, slot: SpillSlot)
        requires
            old(self).ok(),
            m@ == "ldr"@ || m@ == "str"@,
            reg matches Operand::Reg(r) && r.num < 32 && !r.is_sp && (r.class is X || r.class is D),
            slot.0 < old(self).p.frame_slots,
        ensures
            *final(final(self).out) == *final(old(self).out),
            next(*old(self), *final(self), old(self).st().spill_access(m@, reg, slot)),
    {
        reveal(Code::literals_ok);
        self.emit_spill_access_via(m, reg, slot, 19);
    }

    pub(crate) fn emit_movk(&mut self, dst: Reg, g: i64, shift: u32)
        requires
            old(self).ok(),
            good(dst),
            0 <= g < 65536,
            shift == 16 || shift == 32 || shift == 48,
        ensures
            *final(final(self).out) == *final(old(self).out),
            next(*old(self), *final(self), old(self).st().movk(dst, g, shift)),
    {
        reveal(Code::literals_ok);
        proof {
            lemma_mnemonics();
        }
        if g != 0 {
            self.i2("movk", Operand::Reg(dst), Operand::ImmShift(g, shift));
        }
    }

    /// Loads an arbitrary constant.
    pub(crate) fn emit_mov_imm64(&mut self, dst: Reg, v: u64)
        requires
            old(self).ok(),
            good(dst),
        ensures
            *final(final(self).out) == *final(old(self).out),
            next(*old(self), *final(self), old(self).st().mov64(dst, v)),
    {
        reveal(Code::literals_ok);
        proof {
            lemma_mnemonics();
            lemma_group16(v);
        }
        let g0: i64 = ((v >> 0u64) & 0xFFFF) as i64;
        let g1: i64 = ((v >> 16u64) & 0xFFFF) as i64;
        let g2: i64 = ((v >> 32u64) & 0xFFFF) as i64;
        let g3: i64 = ((v >> 48u64) & 0xFFFF) as i64;
        self.i2("movz", Operand::Reg(dst), imm(g0));
        self.emit_movk(dst, g1, 16);
        self.emit_movk(dst, g2, 32);
        self.emit_movk(dst, g3, 48);
    }

    /// Forgets every mirror.
    pub fn r1a_clear(&mut self)
        requires
            old(self).ok(),
        ensures
            *final(final(self).out) == *final(old(self).out),
            next(*old(self), *final(self), old(self).st().clear()),
    {
        reveal(Code::literals_ok);
        let n: usize = self.shadow.len();
        let mut shadow: Vec<Option<u8>> = Vec::new();
        let mut i: usize = 0;
        while i < n
            invariant
                i <= n,
                shadow@.len() == i,
                forall|k: int| 0 <= k < i ==> #[trigger] shadow@[k] is None,
            decreases n - i,
        {
            shadow.push(None);
            i += 1;
        }
        let mut of_reg: Vec<Option<u16>> = Vec::new();
        let mut j: usize = 0;
        while j < 32
            invariant
                j <= 32,
                of_reg@.len() == j,
                forall|k: int| 0 <= k < j ==> #[trigger] of_reg@[k] is None,
            decreases 32 - j,
        {
            of_reg.push(None);
            j += 1;
        }
        proof {
            lemma_no_mirrors(*self.p, shadow@, of_reg@);
        }
        self.shadow = shadow;
        self.of_reg = of_reg;
        assert(self.st().shadow =~= old(self).st().clear().shadow);
        assert(self.st().of_reg =~= old(self).st().clear().of_reg);
    }

    pub(crate) fn r1a_shadow_reg_for(&self, slot: SpillSlot) -> (r: Option<u8>)
        requires
            self.ok(),
        ensures
            r == shadow_reg(*self.p, slot),
            r matches Some(sr) ==> sr < 31,
    {
        reveal(Code::literals_ok);
        let n: usize = self.p.r1a_free.len();
        if n == 0 {
            return None;
        }
        Some(self.p.r1a_free[slot.0 as usize % n])
    }

    pub(crate) fn holds(&self, sr: u8) -> (r: bool)
        ensures
            r == self.hits@.contains(sr),
    {
        reveal(Code::literals_ok);
        let mut i: usize = 0;
        while i < self.hits.len()
            invariant
                i <= self.hits@.len(),
                forall|k: int| 0 <= k < i ==> self.hits@[k] != sr,
            decreases self.hits@.len() - i,
        {
            if self.hits[i] == sr {
                return true;
            }
            i += 1;
        }
        false
    }

    pub(crate) fn r1a_seed(&mut self, slot: SpillSlot, from: Reg)
        requires
            old(self).ok(),
            slot.0 < old(self).p.frame_slots,
            good(from),
        ensures
            *final(final(self).out) == *final(old(self).out),
            next(*old(self), *final(self), old(self).st().seed(*old(self).p, slot, from)),
    {
        reveal(Code::literals_ok);
        proof {
            lemma_mnemonics();
        }
        let sr: u8 = match self.r1a_shadow_reg_for(slot) {
            Some(sr) => sr,
            None => {
                return;
            },
        };
        if self.holds(sr) || self.in_sp {
            return;
        }
        match self.of_reg[sr as usize] {
            Some(o) => {
                if o != slot.0 {
                    self.shadow.set(o as usize, None);
                }
            },
            None => {},
        }
        self.of_reg.set(sr as usize, Some(slot.0));
        self.shadow.set(slot.0 as usize, Some(sr));
        assert(mirrors(*self.p, self.shadow@, self.of_reg@)) by {
            reveal(mirrors);
        }
        if from.num != sr {
            self.i2("mov", x(sr), Operand::Reg(from));
        }
    }

    pub(crate) fn serve(&mut self, slot: SpillSlot, sr: u8, scratch: u8)
        requires
            old(self).ok(),
            slot.0 < old(self).p.frame_slots,
            sr < 31,
            scratch < 31,
        ensures
            *final(final(self).out) == *final(old(self).out),
            next(*old(self), *final(self), old(self).st().serve(*old(self).p, slot, sr, scratch)),
    {
        reveal(Code::literals_ok);
        proof {
            lemma_mnemonics();
        }
        if self.p.r1a_mode == 2 {
            self.emit_spill_access("ldr", x(scratch), slot);
            self.i2("cmp", x(scratch), x(sr));
            let ok: Label = self.lab();
            self.bc(Cond::Eq, ok);
            self.raw(brk(R1A_POISON_BRK));
            self.bind(ok);
        }
        if !self.holds(sr) {
            self.hits.push(sr);
        }
    }

    pub(crate) fn load_slot(&mut self, slot: SpillSlot, scratch: u8)
        requires
            old(self).ok(),
            slot.0 < old(self).p.frame_slots,
            scratch < 31,
        ensures
            *final(final(self).out) == *final(old(self).out),
            next(*old(self), *final(self), old(self).st().load_slot(*old(self).p, slot, scratch)),
    {
        reveal(Code::literals_ok);
        let pays: bool = self.p.r1a_mode != 0 && self.is_profitable();
        self.emit_spill_access("ldr", x(scratch), slot);
        if pays {
            self.r1a_seed(slot, xr(scratch));
        }
    }

    pub(crate) fn is_profitable(&self) -> (r: bool)
        ensures
            r == self.p.profitable(self.pos),
    {
        reveal(Code::literals_ok);
        (self.pos as usize) < self.p.r1a_profitable.len() && self.p.r1a_profitable[self.pos as usize]
    }

    /// Serves a slot from its mirror, if it has one.
    pub(crate) fn r1a_lookup(&mut self, slot: SpillSlot, scratch: u8) -> (r: Option<Reg>)
        requires
            old(self).ok(),
            slot.0 < old(self).p.frame_slots,
            scratch < 31,
        ensures
            *final(final(self).out) == *final(old(self).out),
            match old(self).st().shadow[slot.0 as int] {
                Some(sr) => r == Some(spec_xr(sr)) && sr < 31 && next(
                    *old(self),
                    *final(self),
                    old(self).st().serve(*old(self).p, slot, sr, scratch),
                ),
                None => r is None && next(*old(self), *final(self), old(self).st()),
            },
    {
        reveal(Code::literals_ok);
        match self.shadow[slot.0 as usize] {
            Some(sr) => {
                self.serve(slot, sr, scratch);
                Some(xr(sr))
            },
            None => None,
        }
    }

    /// A value as an operand.
    pub(crate) fn resolve(&mut self, v: VReg, scratch: u8) -> (r: Reg)
        requires
            old(self).ok(),
            old(self).p.has(v),
            scratch < 31,
        ensures
            *final(final(self).out) == *final(old(self).out),
            r == old(self).st().resolve(*old(self).p, v, scratch).0,
            next(*old(self), *final(self), old(self).st().resolve(*old(self).p, v, scratch).1),
            good(r),
    {
        reveal(Code::literals_ok);
        match self.p.resident[v.0 as usize] {
            Some(rr) => {
                return xr(rr);
            },
            None => {},
        }
        match self.assignment_of(v) {
            Assignment::Reg(r) => xr(r),
            Assignment::Spill(slot) => {
                match self.p.const_smi[v.0 as usize] {
                    Some(cv) => {
                        self.emit_mov_imm64(xr(scratch), (cv << 2) as u64);
                        return xr(scratch);
                    },
                    None => {},
                }
                match self.p.const_pool[v.0 as usize] {
                    Some(k) => {
                        let id: LiteralId = self.p.literal_ids[k as usize];
                        self.ldl(xr(scratch), id);
                        return xr(scratch);
                    },
                    None => {},
                }
                if self.p.r1a_mode != 0 {
                    match self.r1a_lookup(slot, scratch) {
                        Some(r) => {
                            return r;
                        },
                        None => {},
                    }
                }
                self.load_slot(slot, scratch);
                xr(scratch)
            },
        }
    }

    pub(crate) fn refresh_resident(&mut self, dst: VReg, from: Reg)
        requires
            old(self).ok(),
            old(self).p.has(dst),
            good(from),
        ensures
            *final(final(self).out) == *final(old(self).out),
            next(*old(self), *final(self), old(self).st().refresh(*old(self).p, dst, from)),
    {
        reveal(Code::literals_ok);
        proof {
            lemma_mnemonics();
        }
        match self.p.resident[dst.0 as usize] {
            Some(rr) => {
                if rr != from.num {
                    self.i2("mov", x(rr), Operand::Reg(from));
                }
            },
            None => {},
        }
    }

    pub(crate) fn dest_target(&self, dst: VReg) -> (r: Reg)
        requires
            self.ok(),
            self.p.has(dst),
        ensures
            r == dest(*self.p, dst),
            good(r),
    {
        reveal(Code::literals_ok);
        match self.assignment_of(dst) {
            Assignment::Reg(r) => xr(r),
            Assignment::Spill(_) => xr(16),
        }
    }

    pub(crate) fn dest_target_direct(&self, dst: VReg) -> (r: Reg)
        requires
            self.ok(),
            self.p.has(dst),
        ensures
            r == dest_direct(*self.p, dst),
            good(r),
    {
        reveal(Code::literals_ok);
        match self.p.resident[dst.0 as usize] {
            Some(rr) => xr(rr),
            None => self.dest_target(dst),
        }
    }

    /// Puts a computed value into its home.
    pub(crate) fn commit(&mut self, dst: VReg, from: Reg)
        requires
            old(self).ok(),
            old(self).p.has(dst),
            good(from),
        ensures
            *final(final(self).out) == *final(old(self).out),
            next(*old(self), *final(self), old(self).st().commit(*old(self).p, dst, from)),
    {
        reveal(Code::literals_ok);
        if self.p.const_smi[dst.0 as usize].is_some() || self.p.const_pool[dst.0 as usize].is_some() {
            self.refresh_resident(dst, from);
            return;
        }
        match self.assignment_of(dst) {
            Assignment::Spill(slot) => {
                if !self.p.s2_smi[dst.0 as usize] {
                    let pays: bool = self.p.r1a_mode != 0 && self.p.resident[dst.0 as usize].is_none()
                        && self.is_profitable();
                    self.emit_spill_access("str", Operand::Reg(from), slot);
                    if pays {
                        self.r1a_seed(slot, from);
                    }
                } else if self.p.s2_mode == 2 {
                    self.refresh_resident(dst, from);
                    self.emit_mov_imm64(xr(17), s2_poison_for(slot));
                    self.emit_spill_access("str", x(17), slot);
                    return;
                }
            },
            Assignment::Reg(_) => {},
        }
        self.refresh_resident(dst, from);
    }

    pub(crate) fn fp_spill_access(&mut self, m: &str, dreg: u8, slot: SpillSlot)
        requires
            old(self).ok(),
            m@ == "ldr"@ || m@ == "str"@,
            dreg < 32,
            slot.0 < old(self).p.frame_slots,
        ensures
            *final(final(self).out) == *final(old(self).out),
            next(*old(self), *final(self), old(self).st().fp_spill_access(m@, dreg, slot)),
    {
        reveal(Code::literals_ok);
        self.emit_spill_access_via(m, d(dreg), slot, 16);
    }

    pub(crate) fn resolve_fp(&mut self, v: VReg, scratch: u8) -> (r: u8)
        requires
            old(self).ok(),
            old(self).p.has(v),
            scratch < 31,
        ensures
            *final(final(self).out) == *final(old(self).out),
            r == old(self).st().resolve_fp(*old(self).p, v, scratch).0,
            next(*old(self), *final(self), old(self).st().resolve_fp(*old(self).p, v, scratch).1),
            r < 31,
    {
        reveal(Code::literals_ok);
        match self.p.resident[v.0 as usize] {
            Some(rr) => {
                return rr;
            },
            None => {},
        }
        match self.assignment_of(v) {
            Assignment::Reg(r) => r,
            Assignment::Spill(slot) => {
                self.fp_spill_access("ldr", scratch, slot);
                scratch
            },
        }
    }

    pub(crate) fn dest_target_fp(&self, dst: VReg) -> (r: u8)
        requires
            self.ok(),
            self.p.has(dst),
        ensures
            r == dest_fp(*self.p, dst),
            r < 31,
    {
        reveal(Code::literals_ok);
        match self.assignment_of(dst) {
            Assignment::Reg(r) => r,
            Assignment::Spill(_) => 16,
        }
    }

    pub(crate) fn commit_fp(&mut self, dst: VReg, from: u8)
        requires
            old(self).ok(),
            old(self).p.has(dst),
            from < 31,
        ensures
            *final(final(self).out) == *final(old(self).out),
            next(*old(self), *final(self), old(self).st().commit_fp(*old(self).p, dst, from)),
    {
        reveal(Code::literals_ok);
        proof {
            lemma_mnemonics();
        }
        match self.assignment_of(dst) {
            Assignment::Spill(slot) => {
                self.fp_spill_access("str", from, slot);
            },
            Assignment::Reg(_) => {},
        }
        match self.p.resident[dst.0 as usize] {
            Some(rr) => {
                if rr != from {
                    self.i2("fmov", d(rr), d(from));
                }
            },
            None => {},
        }
    }

    pub(crate) fn reload_one(&mut self, r: Reload)
        requires
            old(self).ok(),
            old(self).p.reload_ok(r),
        ensures
            *final(final(self).out) == *final(old(self).out),
            next(*old(self), *final(self), old(self).st().reload_one(*old(self).p, r)),
    {
        reveal(Code::literals_ok);
        if r.is_fp {
            self.fp_spill_access("ldr", r.reg, r.slot);
            return;
        }
        match self.p.const_smi[r.vreg as usize] {
            Some(cv) => {
                self.emit_mov_imm64(xr(r.reg), (cv << 2) as u64);
                return;
            },
            None => {},
        }
        match self.p.const_pool[r.vreg as usize] {
            Some(k) => {
                let id: LiteralId = self.p.literal_ids[k as usize];
                self.ldl(xr(r.reg), id);
            },
            None => {
                self.emit_spill_access("ldr", x(r.reg), r.slot);
            },
        }
    }

    /// Reloads every resident live at a position, but for one register's.
    pub fn emit_resident_reloads_at_excluding(&mut self, pos: u32, skip: Option<VReg>)
        requires
            old(self).ok(),
        ensures
            *final(final(self).out) == *final(old(self).out),
            next(*old(self), *final(self), old(self).st().reloads_at(*old(self).p, pos, skip)),
    {
        reveal(Code::literals_ok);
        let mut k: usize = 0;
        while k < self.p.reloads.len()
            invariant
                k <= self.p.reloads@.len(),
                old(self).ok(),
                *final(self.out) == *final(old(self).out),
                next(*old(self), *self, old(self).st().reloads_upto(*old(self).p, pos, skip, k as int)),
            decreases self.p.reloads@.len() - k,
        {
            let r: Reload = self.p.reloads[k];
            let skipped: bool = match skip {
                Some(v) => v.0 == r.vreg,
                None => false,
            };
            if r.start <= pos && pos < r.end && !skipped {
                self.reload_one(r);
            }
            k += 1;
        }
    }

    pub fn emit_resident_reloads_at(&mut self, pos: u32)
        requires
            old(self).ok(),
        ensures
            *final(final(self).out) == *final(old(self).out),
            next(*old(self), *final(self), old(self).st().reloads_at(*old(self).p, pos, None)),
    {
        reveal(Code::literals_ok);
        self.emit_resident_reloads_at_excluding(pos, None);
    }

    pub(crate) fn emit_resident_reloads(&mut self)
        requires
            old(self).ok(),
        ensures
            *final(final(self).out) == *final(old(self).out),
            next(*old(self), *final(self), old(self).st().reloads_at(*old(self).p, old(self).st().pos, None)),
    {
        reveal(Code::literals_ok);
        self.emit_resident_reloads_at(self.pos);
    }

    pub(crate) fn s2_extra_here(&self, v: u32) -> (r: bool)
        ensures
            r == self.p.s2_extra@.contains((v, self.pos)),
    {
        reveal(Code::literals_ok);
        let mut i: usize = 0;
        while i < self.p.s2_extra.len()
            invariant
                i <= self.p.s2_extra@.len(),
                forall|k: int| 0 <= k < i ==> self.p.s2_extra@[k] != (v, self.pos),
            decreases self.p.s2_extra@.len() - i,
        {
            let e: (u32, u32) = self.p.s2_extra[i];
            if e.0 == v && e.1 == self.pos {
                assert(self.p.s2_extra@[i as int] == (v, self.pos));
                return true;
            }
            i += 1;
        }
        false
    }

    /// Brings the slots of authoritative registers up to date.
    pub(crate) fn emit_s2_spill_stores(&mut self)
        requires
            old(self).ok(),
        ensures
            *final(final(self).out) == *final(old(self).out),
            next(*old(self), *final(self), old(self).st().s2_stores(*old(self).p)),
            final(self).st().pos == old(self).st().pos,
    {
        reveal(Code::literals_ok);
        let mut k: usize = 0;
        while k < self.p.s2_stores.len()
            invariant
                k <= self.p.s2_stores@.len(),
                old(self).ok(),
                *final(self.out) == *final(old(self).out),
                self.pos == old(self).pos,
                next(*old(self), *self, old(self).st().s2_stores_upto(*old(self).p, k as int)),
            decreases self.p.s2_stores@.len() - k,
        {
            let r: Reload = self.p.s2_stores[k];
            if (r.start <= self.pos && self.pos < r.end) || self.s2_extra_here(r.vreg) {
                self.emit_spill_access("str", x(r.reg), r.slot);
            }
            k += 1;
        }
    }

    pub(crate) fn smi_ok(&self, v: VReg) -> (r: bool)
        requires
            self.ok(),
            self.p.has(v),
        ensures
            r == self.p.smi_ok(v, self.pos),
    {
        reveal(Code::literals_ok);
        if self.p.known_smi[v.0 as usize] {
            return true;
        }
        if (self.pos as usize) >= self.p.proven_smi_at.len() {
            return false;
        }
        let row: &Vec<u32> = &self.p.proven_smi_at[self.pos as usize];
        let mut i: usize = 0;
        while i < row.len()
            invariant
                i <= row@.len(),
                self.pos < self.p.proven_smi_at@.len(),
                row == self.p.proven_smi_at@[self.pos as int],
                forall|k: int| 0 <= k < i ==> row@[k] != v.0,
            decreases row@.len() - i,
        {
            if row[i] == v.0 {
                return true;
            }
            i += 1;
        }
        false
    }

    /// Tag tests of two operands.
    pub(crate) fn emit_tag_check(&mut self, a: VReg, ra: Reg, b: VReg, rb: Reg, fail: BlockId)
        requires
            old(self).ok(),
            old(self).p.has(a),
            old(self).p.has(b),
            good(ra),
            good(rb),
            old(self).p.block(fail),
        ensures
            *final(final(self).out) == *final(old(self).out),
            next(*old(self), *final(self), old(self).st().tag_check(*old(self).p, a, ra, b, rb, fail)),
    {
        reveal(Code::literals_ok);
        proof {
            lemma_mnemonics();
        }
        let a_ok: bool = self.smi_ok(a);
        let b_ok: bool = self.smi_ok(b);
        let l: Label = self.block_label(fail);
        if !a_ok {
            self.i2("tst", Operand::Reg(ra), imm(3));
            self.bc(Cond::Ne, l);
        }
        if !b_ok {
            self.i2("tst", Operand::Reg(rb), imm(3));
            self.bc(Cond::Ne, l);
        }
    }
}

/// The offset of a slot from the frame pointer.
pub fn spill_offset(slot: SpillSlot) -> (off: i64)
    ensures
        off == spill_off(slot),
        off == -8 * (slot.0 + 1),
{
    -8 * (slot.0 as i64 + 1)
}

/// The marker value of a slot that is not current.
pub fn s2_poison_for(slot: SpillSlot) -> (v: u64)
    ensures
        v == poison(slot),
{
    0xC0DE_0000_0000u64 | ((slot.0 as u64) << 4)
}

pub(crate) fn brk(code: u32) -> (w: u32)
    ensures
        w == brk_word(code),
{
    0xD420_0000u32 | (code << 5)
}

} // verus!
