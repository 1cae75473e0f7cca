//! The lowering of each instruction to its machine sequence.
use vstd::prelude::*;
#[allow(unused_imports)]
use crate::compiler::a64::{lemma_mnemonics, mnemonic_of, Mnemonic};
use crate::compiler::assembler::{
    d, imm, mem, mem_post, mem_pre, q, sp, v2d, v4s, vd_lane, w, x, xr, Assembler, Cond, Label, LiteralId,
    Operand, Reg, Shift,
};
use crate::compiler::emitter::{brk, Emitter, Plan, CARD_SHIFT_IMM, TRAP_UNCOMMON};
#[allow(unused_imports)]
use crate::compiler::emitter::{
    lemma_epilogue_global, brk_word, dest, dest_direct, dest_fp, good, next, stepped, St,
};
use crate::compiler::ir::{BlockId, CmpOp, FArithOp, GuardShape, PoolLit, SmiOp, VReg, VecKind};
use crate::compiler::regalloc::Assignment;
use crate::oops::{
    HEADER_WORDS, MEM_TAG, NLR_SENTINEL, PRIM_FAIL_SENTINEL, VMREG_CARD_BASE_BIASED_OFFSET, VMREG_EDEN_END_OFFSET,
    VMREG_EDEN_TOP_ADDR_OFFSET, VMREG_OLD_START_OFFSET, VMREG_POLL_FLAG_OFFSET, WORD_SIZE,
};

verus! {

broadcast use crate::compiler::a64::group_encoding;

/// The condition of an integer comparison.
pub open spec fn int_cond(op: CmpOp) -> Cond {
    match op {
        CmpOp::Lt => Cond::Lt,
        CmpOp::Le => Cond::Le,
        CmpOp::Gt => Cond::Gt,
        CmpOp::Ge => Cond::Ge,
        CmpOp::Eq => Cond::Eq,
        CmpOp::Ne => Cond::Ne,
    }
}

/// The condition of an integer comparison.
pub fn cmp_op_to_cond(op: CmpOp) -> (c: Cond)
    ensures
        c == int_cond(op),
{
    match op {
        CmpOp::Lt => Cond::Lt,
        CmpOp::Le => Cond::Le,
        CmpOp::Gt => Cond::Gt,
        CmpOp::Ge => Cond::Ge,
        CmpOp::Eq => Cond::Eq,
        CmpOp::Ne => Cond::Ne,
    }
}

/// The condition of a float comparison: false on an unordered result for every relation but
/// inequality.
pub open spec fn float_cond(op: CmpOp) -> Cond {
    match op {
        CmpOp::Lt => Cond::Mi,
        CmpOp::Le => Cond::Ls,
        CmpOp::Gt => Cond::Gt,
        CmpOp::Ge => Cond::Ge,
        CmpOp::Eq => Cond::Eq,
        CmpOp::Ne => Cond::Ne,
    }
}

/// The condition of a float comparison.
pub fn fcmp_cond(op: CmpOp) -> (c: Cond)
    ensures
        c == float_cond(op),
{
    match op {
        CmpOp::Lt => Cond::Mi,
        CmpOp::Le => Cond::Ls,
        CmpOp::Gt => Cond::Gt,
        CmpOp::Ge => Cond::Ge,
        CmpOp::Eq => Cond::Eq,
        CmpOp::Ne => Cond::Ne,
    }
}

/// The four flags that a comparison leaves.
pub struct Flags {
    pub n: bool,
    pub z: bool,
    pub c: bool,
    pub v: bool,
}

/// Whether a condition holds of the flags.
pub open spec fn cond_holds(c: Cond, f: Flags) -> bool {
    match c {
        Cond::Eq => f.z,
        Cond::Ne => !f.z,
        Cond::Hs => f.c,
        Cond::Lo => !f.c,
        Cond::Mi => f.n,
        Cond::Pl => !f.n,
        Cond::Vs => f.v,
        Cond::Vc => !f.v,
        Cond::Hi => f.c && !f.z,
        Cond::Ls => !(f.c && !f.z),
        Cond::Ge => f.n == f.v,
        Cond::Lt => f.n != f.v,
        Cond::Gt => !f.z && f.n == f.v,
        Cond::Le => !(!f.z && f.n == f.v),
    }
}

/// The flags that `fcmp` sets when an operand is not a number.
pub open spec fn unordered() -> Flags {
    Flags { n: false, z: false, c: true, v: true }
}

/// A float comparison with an operand that is not a number answers false, but for inequality,
/// which answers true.
pub proof fn law_unordered_compares_false(op: CmpOp)
    ensures
        cond_holds(float_cond(op), unordered()) == (op == CmpOp::Ne),
{
}

/// The offset of a biased field access.
pub open spec fn biased(byte_off: i32) -> i64 {
    (byte_off - 1) as i64
}

/// A field offset that a load can reach: near, or aligned and within the scaled range.
pub open spec fn load_off_ok(byte_off: i32) -> bool {
    -255 <= byte_off <= 256 || (0 <= byte_off <= 32760 && byte_off % 8 == 0)
}

/// A field offset that a store can reach.
pub open spec fn store_off_ok(byte_off: i32, barrier: bool) -> bool {
    if barrier {
        1 <= byte_off <= 4096
    } else {
        -255 <= byte_off <= 4096
    }
}

impl St {
    /// Guards of an array access: a heap receiver of the class, a small-integer index, and the
    /// index within the size, compared tagged.
    pub open spec fn indexed_guards(
        self,
        robj: Reg,
        ridx: Reg,
        klass: LiteralId,
        size_off: i64,
        fail: Label,
    ) -> St {
        self.i3("and"@, x(19), Operand::Reg(robj), imm(3)).i2("cmp"@, x(19), imm(1)).bc(Cond::Ne, fail).i2(
            "ldur"@,
            x(19),
            mem(robj.num, 7),
        ).ldl(xr(20), klass).i2("cmp"@, x(19), x(20)).bc(Cond::Ne, fail).i2("tst"@, Operand::Reg(ridx), imm(3)).bc(
            Cond::Ne,
            fail,
        ).i2("ldur"@, x(19), mem(robj.num, size_off)).i3("sub"@, x(20), Operand::Reg(ridx), imm(4)).i2(
            "cmp"@,
            x(20),
            x(19),
        ).bc(Cond::Hs, fail)
    }

    pub open spec fn opt_array_guards(self, p: Plan, robj: Reg, ridx: Reg, g: Option<(PoolLit, BlockId)>) -> St {
        match g {
            Some((klass, fail)) => self.indexed_guards(robj, ridx, p.lit(klass), 15, p.labels@[fail.0 as int]),
            None => self,
        }
    }

    pub open spec fn array_at(self, p: Plan, dst: VReg, arr: VReg, idx: VReg, g: Option<(PoolLit, BlockId)>) -> St {
        let (ra, s1) = self.resolve(p, arr, 16);
        let (ri, s2) = s1.resolve(p, idx, 17);
        let dr = dest(p, dst);
        s2.opt_array_guards(p, ra, ri, g).i3("add"@, x(19), Operand::Reg(ra), Operand::Reg(ri)).i3(
            "add"@,
            x(19),
            x(19),
            Operand::Reg(ri),
        ).i2("ldur"@, Operand::Reg(dr), mem(19, 15)).commit(p, dst, dr)
    }

    /// The stored value, resolved without touching `x19`.
    pub open spec fn resolve_value(self, p: Plan, v: VReg) -> (Reg, St) {
        match p.resident@[v.0 as int] {
            Some(rr) => (xr(rr), self),
            None => match p.home(v) {
                Assignment::Reg(r) => (xr(r), self),
                Assignment::Spill(slot) => (xr(16), self.spill_access_via("ldr"@, x(16), slot, 20)),
            },
        }
    }

    /// Dirties the card of a slot where an old object comes to hold a young one. `off` is added to
    /// `base` for the slot's address.
    pub open spec fn card_barrier(self, robj: Reg, rval: Reg, base: Operand, off: i64) -> St {
        let skip = self.code.next_label();
        self.lab().i2("ldr"@, x(20), mem(28, VMREG_OLD_START_OFFSET)).i2("cmp"@, Operand::Reg(robj), x(20)).bc(
            Cond::Lo,
            skip,
        ).i2("tst"@, Operand::Reg(rval), imm(3)).bc(Cond::Eq, skip).i2("cmp"@, Operand::Reg(rval), x(20)).bc(
            Cond::Hs,
            skip,
        ).i3("add"@, x(19), base, imm(off)).i3("lsr"@, x(19), x(19), imm(CARD_SHIFT_IMM)).i2(
            "ldr"@,
            x(20),
            mem(28, VMREG_CARD_BASE_BIASED_OFFSET),
        ).i3("add"@, x(20), x(20), x(19)).i2("strb"@, x(31), mem(20, 0)).bind(skip)
    }

    pub open spec fn array_at_put(
        self,
        p: Plan,
        dst: VReg,
        arr: VReg,
        idx: VReg,
        val: VReg,
        g: Option<(PoolLit, BlockId)>,
    ) -> St {
        let (ra, s1) = self.resolve(p, arr, 16);
        let (ri, s2) = s1.resolve(p, idx, 17);
        let s3 = s2.opt_array_guards(p, ra, ri, g).i3("add"@, x(19), Operand::Reg(ra), Operand::Reg(ri)).i3(
            "add"@,
            x(19),
            x(19),
            Operand::Reg(ri),
        );
        let (rv, s4) = s3.resolve_value(p, val);
        s4.i2("stur"@, Operand::Reg(rv), mem(19, 15)).card_barrier(ra, rv, x(19), 15).commit(p, dst, rv)
    }

    pub open spec fn byte_at(
        self,
        p: Plan,
        dst: VReg,
        obj: VReg,
        idx: VReg,
        klass: PoolLit,
        len_off: i32,
        tail_off: i32,
        fail: BlockId,
    ) -> St {
        let (ro, s1) = self.resolve(p, obj, 16);
        let (ri, s2) = s1.resolve(p, idx, 17);
        let dr = dest(p, dst);
        s2.indexed_guards(ro, ri, p.lit(klass), (len_off - 1) as i64, p.labels@[fail.0 as int]).i3(
            "asr"@,
            x(19),
            Operand::Reg(ri),
            imm(2),
        ).i3("add"@, x(19), x(19), Operand::Reg(ro)).i2("ldurb"@, Operand::Reg(dr), mem(19, (tail_off - 2) as i64)).i3(
            "lsl"@,
            Operand::Reg(dr),
            Operand::Reg(dr),
            imm(2),
        ).commit(p, dst, dr)
    }

    pub open spec fn byte_at_put(
        self,
        p: Plan,
        dst: VReg,
        obj: VReg,
        idx: VReg,
        val: VReg,
        klass: PoolLit,
        len_off: i32,
        tail_off: i32,
        fail: BlockId,
    ) -> St {
        let l = p.labels@[fail.0 as int];
        let (ro, s1) = self.resolve(p, obj, 16);
        let (ri, s2) = s1.resolve(p, idx, 17);
        let s3 = s2.indexed_guards(ro, ri, p.lit(klass), (len_off - 1) as i64, l).i3(
            "asr"@,
            x(19),
            Operand::Reg(ri),
            imm(2),
        ).i3("add"@, x(19), x(19), Operand::Reg(ro));
        let (rv, s4) = s3.resolve_value(p, val);
        s4.i2("tst"@, Operand::Reg(rv), imm(3)).bc(Cond::Ne, l).i2("cmp"@, Operand::Reg(rv), imm(1020)).bc(
            Cond::Hi,
            l,
        ).i3("asr"@, x(20), Operand::Reg(rv), imm(2)).i2("sturb"@, x(20), mem(19, (tail_off - 2) as i64)).commit(
            p,
            dst,
            rv,
        )
    }

    /// Arithmetic without a sequence of its own: one instruction on tagged operands, with an
    /// overflow exit for sums and differences.
    pub open spec fn smi_simple(self, p: Plan, op: SmiOp, dst: VReg, a: VReg, b: VReg, fail: BlockId) -> St {
        let (ra, s1) = self.resolve(p, a, 16);
        let (rb, s2) = s1.resolve(p, b, 17);
        let dr = dest_direct(p, dst);
        let s3 = s2.tag_check(p, a, ra, b, rb, fail).i3(
            simple_name(op),
            Operand::Reg(dr),
            Operand::Reg(ra),
            Operand::Reg(rb),
        );
        let s4 = if op is Add || op is Sub {
            s3.bc(Cond::Vs, p.labels@[fail.0 as int])
        } else {
            s3
        };
        s4.commit(p, dst, dr)
    }

    pub open spec fn smi_shift(self, p: Plan, dst: VReg, a: VReg, count: VReg, fail: BlockId) -> St {
        let l = p.labels@[fail.0 as int];
        let (ra, s1) = self.resolve(p, a, 16);
        let (rc, s2) = s1.resolve(p, count, 17);
        let s3 = s2.i2("tst"@, Operand::Reg(ra), imm(3)).bc(Cond::Ne, l).i2("tst"@, Operand::Reg(rc), imm(3)).bc(
            Cond::Ne,
            l,
        ).i3("add"@, x(19), Operand::Reg(rc), imm(244)).i2("cmp"@, x(19), imm(488)).bc(Cond::Hi, l).i3(
            "asr"@,
            x(19),
            Operand::Reg(rc),
            imm(2),
        );
        let right = s3.code.next_label();
        let s4 = s3.lab();
        let done = s4.code.next_label();
        let dr = dest(p, dst);
        s4.lab().i2("cmp"@, x(19), imm(0)).bc(Cond::Lt, right).i3("lslv"@, x(20), Operand::Reg(ra), x(19)).i3(
            "asrv"@,
            x(19),
            x(20),
            x(19),
        ).i2("cmp"@, x(19), Operand::Reg(ra)).bc(Cond::Ne, l).i2("mov"@, Operand::Reg(dr), x(20)).b(done).bind(
            right,
        ).i2("neg"@, x(19), x(19)).i3("asrv"@, x(20), Operand::Reg(ra), x(19)).i3(
            "and"@,
            Operand::Reg(dr),
            x(20),
            imm((-4) as i64),
        ).bind(done).commit(p, dst, dr)
    }

    /// Multiplication: the low word parked in the destination's home, the high word compared with
    /// the low word's sign.
    pub open spec fn smi_mul(self, p: Plan, dst: VReg, a: VReg, b: VReg, fail: BlockId) -> St {
        let (ra, s1) = self.resolve(p, a, 16);
        let (rb0, s2) = s1.resolve(p, b, 17);
        let s3 = s2.tag_check(p, a, ra, b, rb0, fail).i3("asr"@, x(16), Operand::Reg(ra), imm(2));
        let (rb1, s4) = s3.resolve(p, b, 17);
        let s5 = s4.i3("mul"@, x(17), x(16), Operand::Reg(rb1));
        let s6 = match p.home(dst) {
            Assignment::Reg(r) => s5.i2("mov"@, x(r), x(17)),
            Assignment::Spill(slot) => s5.spill_access("str"@, x(17), slot),
        };
        let (rb2, s7) = s6.resolve(p, b, 17);
        let s8 = s7.i3("smulh"@, x(16), x(16), Operand::Reg(rb2));
        let (low, s9) = match p.home(dst) {
            Assignment::Reg(r) => (xr(r), s8),
            Assignment::Spill(slot) => (xr(17), s8.spill_access("ldr"@, x(17), slot)),
        };
        s9.i2("cmp"@, x(16), Operand::RegShift(low, Shift::Asr, 63)).bc(
            Cond::Ne,
            p.labels@[fail.0 as int],
        ).refresh(p, dst, low)
    }

    /// Floored division: `sdiv` and `msub`, corrected where the remainder is not zero and its sign
    /// differs from the divisor's.
    pub open spec fn smi_divmod(self, p: Plan, op: SmiOp, dst: VReg, a: VReg, b: VReg, fail: BlockId) -> St {
        let l = p.labels@[fail.0 as int];
        let (ra, s1) = self.resolve(p, a, 16);
        let (rb, s2) = s1.resolve(p, b, 17);
        let s3 = s2.tag_check(p, a, ra, b, rb, fail).cbz(rb, l).i3("asr"@, x(19), Operand::Reg(ra), imm(2)).i3(
            "asr"@,
            x(20),
            Operand::Reg(rb),
            imm(2),
        ).i3("sdiv"@, x(16), x(19), x(20)).i4("msub"@, x(17), x(16), x(20), x(19));
        let done = s3.code.next_label();
        let s4 = s3.lab().cbz(xr(17), done).i3("eor"@, x(19), x(17), x(20)).i2("cmp"@, x(19), imm(0)).bc(
            Cond::Ge,
            done,
        ).i3("sub"@, x(16), x(16), imm(1)).i3("add"@, x(17), x(17), x(20)).bind(done);
        let dr = dest_direct(p, dst);
        let s5 = if op is Div {
            s4.i3("lsl"@, x(19), x(16), imm(2)).i2("cmp"@, x(16), Operand::RegShift(xr(19), Shift::Asr, 2)).bc(
                Cond::Ne,
                l,
            ).i2("mov"@, Operand::Reg(dr), x(19))
        } else {
            s4.i3("lsl"@, Operand::Reg(dr), x(17), imm(2))
        };
        s5.commit(p, dst, dr)
    }

    pub open spec fn load_field(self, p: Plan, dst: VReg, obj: VReg, byte_off: i32) -> St {
        let (ra, s1) = self.resolve(p, obj, 16);
        let dr = dest(p, dst);
        let s2 = if -256 <= biased(byte_off) <= 255 {
            s1.i2("ldur"@, Operand::Reg(dr), mem(ra.num, biased(byte_off)))
        } else {
            s1.i3("sub"@, x(16), Operand::Reg(ra), imm(1)).i2("ldr"@, Operand::Reg(dr), mem(16, byte_off as i64))
        };
        s2.commit(p, dst, dr)
    }

    pub open spec fn store_field(self, p: Plan, obj: VReg, byte_off: i32, val: VReg, barrier: bool) -> St {
        let (ro, s1) = self.resolve(p, obj, 16);
        let (rv, s2) = s1.resolve(p, val, 17);
        let off = biased(byte_off);
        let s3 = if -256 <= off <= 255 {
            s2.i2("stur"@, Operand::Reg(rv), mem(ro.num, off))
        } else {
            s2.i3("add"@, x(19), Operand::Reg(ro), imm(off)).i2("str"@, Operand::Reg(rv), mem(19, 0))
        };
        if barrier {
            s3.card_barrier(ro, rv, Operand::Reg(ro), off)
        } else {
            s3
        }
    }

    /// A primitive tried before the method's own code: through the leaf door where there is one,
    /// else through the primitive stub.
    pub open spec fn prim_shim(self, p: Plan, prim_id: i64, argc: u8, epilogue: Label) -> St {
        let fail = self.code.next_label();
        match p.leaf_prim_lits {
            Some((rt, f)) => self.lab().i3("stp"@, x(29), x(30), mem_pre(31, (-64) as i64)).i2("mov"@, x(29), sp()).i3(
                "stp"@,
                x(0),
                x(1),
                mem(31, 16),
            ).i3("stp"@, x(2), x(3), mem(31, 32)).i3("stp"@, x(4), x(5), mem(31, 48)).i2("mov"@, x(0), x(28)).i3(
                "add"@,
                x(1),
                sp(),
                imm(16),
            ).i2("movz"@, x(2), imm(argc as i64)).ldl(xr(3), f).far(rt).i2("cmp"@, x(0), imm(PRIM_FAIL_SENTINEL)).bc(
                Cond::Eq,
                fail,
            ).i3("ldp"@, x(29), x(30), mem_post(31, 64)).b(epilogue).bind(fail).i3("ldp"@, x(0), x(1), mem(31, 16)).i3(
                "ldp"@,
                x(2),
                x(3),
                mem(31, 32),
            ).i3("ldp"@, x(4), x(5), mem(31, 48)).i3("ldp"@, x(29), x(30), mem_post(31, 64)),
            None => self.lab().i2("movz"@, x(10), imm(prim_id)).i2("movz"@, x(11), imm(argc as i64)).far(
                p.stubs.call_primitive,
            ).safepoint().i2("cmp"@, x(16), imm(PRIM_FAIL_SENTINEL)).bc(Cond::Eq, fail).i2("mov"@, x(0), x(16)).b(
                epilogue,
            ).bind(fail),
        }
    }

    /// Bumps the allocation pointer by `size` bytes; on success the object's base is in `x19`.
    pub open spec fn bump(self, size: i64, slow: Label) -> St {
        self.i2("ldr"@, x(20), mem(28, VMREG_EDEN_TOP_ADDR_OFFSET)).i2("ldr"@, x(19), mem(20, 0)).i3(
            "add"@,
            x(17),
            x(19),
            imm(size),
        ).i2("ldr"@, x(19), mem(28, VMREG_EDEN_END_OFFSET)).i2("cmp"@, x(17), x(19)).bc(Cond::Hi, slow).i2(
            "str"@,
            x(17),
            mem(20, 0),
        ).i3("sub"@, x(19), x(17), imm(size))
    }

    /// Stamps the mark and the class of a fresh object.
    pub open spec fn header(self, mark: LiteralId, klass: LiteralId) -> St {
        self.ldl(xr(17), mark).i2("str"@, x(17), mem(19, 0)).ldl(xr(17), klass).i2("str"@, x(17), mem(19, 8))
    }

    /// Stores `x17` to the first `k` body words.
    pub open spec fn fill(self, k: nat) -> St
        decreases k,
    {
        if k == 0 {
            self
        } else {
            self.fill((k - 1) as nat).i2("str"@, x(17), mem(19, (8 * (HEADER_WORDS + (k - 1))) as i64))
        }
    }

    pub open spec fn nil_fill(self, nil: LiteralId, words: nat) -> St {
        if words > 0 {
            self.ldl(xr(17), nil).fill(words)
        } else {
            self
        }
    }

    /// After a call that may have moved objects: the safepoint, the reloads, the result in place.
    pub open spec fn after_slow(self, p: Plan, dst: VReg, dr: Reg, done: Label) -> St {
        let s = self.safepoint();
        let s1 = s.reloads_at(p, s.pos, None);
        let s2 = if dr.num != 0 {
            s1.i2("mov"@, Operand::Reg(dr), x(0))
        } else {
            s1
        };
        s2.bind(done).commit(p, dst, dr)
    }

    pub open spec fn alloc_object(self, p: Plan, dst: VReg, klass: PoolLit, size_words: u32) -> St {
        let size = (size_words * WORD_SIZE) as i64;
        let dr = dest(p, dst);
        let slow = self.code.next_label();
        let s1 = self.lab();
        let done = s1.code.next_label();
        s1.lab().bump(size, slow).header(p.lit(p.mark_slots_lit), p.lit(klass)).nil_fill(
            p.lit(p.nil_lit),
            (size_words - HEADER_WORDS) as nat,
        ).i3("add"@, Operand::Reg(dr), x(19), imm(MEM_TAG)).b(done).bind(slow).ldl(xr(0), p.lit(klass)).mov64(
            xr(1),
            size as u64,
        ).s2_stores(p).far(p.stubs.alloc_slow).after_slow(p, dst, dr, done)
    }

    pub open spec fn funbox(self, p: Plan, dst: VReg, src: VReg, fail: BlockId) -> St {
        let (ro, s1) = self.resolve(p, src, 16);
        let dd = dest_fp(p, dst);
        s1.boxed_guard(ro, p.lit(p.double_klass_lit), p.labels@[fail.0 as int]).i2("ldr"@, d(dd), mem(17, 16)).commit_fp(
            p,
            dst,
            dd,
        )
    }

    /// Guards a boxed operand: a heap object of the class; its untagged address is left in `x17`.
    pub open spec fn boxed_guard(self, r: Reg, klass: LiteralId, cold: Label) -> St {
        self.i2("tst"@, Operand::Reg(r), imm(3)).bc(Cond::Eq, cold).i3("sub"@, x(17), Operand::Reg(r), imm(1)).i2(
            "ldr"@,
            x(16),
            mem(17, 8),
        ).ldl(xr(19), klass).i2("cmp"@, x(16), x(19)).bc(Cond::Ne, cold)
    }

    pub open spec fn fbox(self, p: Plan, dst: VReg, src: VReg) -> St {
        let (ds, s1) = self.resolve_fp(p, src, 16);
        let dr = dest(p, dst);
        let slow = s1.code.next_label();
        let s2 = s1.lab();
        let done = s2.code.next_label();
        s2.lab().bump(24, slow).header(p.lit(p.mark_double_lit), p.lit(p.double_klass_lit)).i2(
            "str"@,
            d(ds),
            mem(19, 16),
        ).i3("add"@, Operand::Reg(dr), x(19), imm(MEM_TAG)).b(done).bind(slow).i2("fmov"@, x(0), d(ds)).s2_stores(
            p,
        ).far(p.stubs.box_double).after_slow(p, dst, dr, done)
    }

    pub open spec fn vecarith(
        self,
        p: Plan,
        kind: VecKind,
        op: FArithOp,
        dst: VReg,
        a: VReg,
        b: VReg,
        fail: BlockId,
    ) -> St {
        let cold = p.labels@[fail.0 as int];
        let klass = vec_klass(p, kind);
        let (ra, s1) = self.resolve(p, a, 16);
        let s2 = s1.boxed_guard(ra, klass, cold).i2("ldr"@, q(16), mem(17, 16));
        let (rb, s3) = s2.resolve(p, b, 16);
        let s4 = s3.boxed_guard(rb, klass, cold).i2("ldr"@, q(17), mem(17, 16)).i3(
            vec_name(kind, op),
            varr(kind, 16),
            varr(kind, 16),
            varr(kind, 17),
        );
        let dr = dest(p, dst);
        let slow = s4.code.next_label();
        let s5 = s4.lab();
        let done = s5.code.next_label();
        s5.lab().bump(32, slow).header(p.lit(p.mark_double_lit), klass).i2("str"@, q(16), mem(19, 16)).i3(
            "add"@,
            Operand::Reg(dr),
            x(19),
            imm(MEM_TAG),
        ).b(done).bind(slow).i2("umov"@, x(0), vd_lane(16, 0)).i2("umov"@, x(1), vd_lane(16, 1)).s2_stores(p).far(
            vec_stub(p, kind),
        ).after_slow(p, dst, dr, done)
    }

    pub open spec fn farith(self, p: Plan, op: FArithOp, dst: VReg, a: VReg, b: VReg) -> St {
        let (da, s1) = self.resolve_fp(p, a, 16);
        let (db, s2) = s1.resolve_fp(p, b, 17);
        let dd = dest_fp(p, dst);
        s2.i3(float_name(op), d(dd), d(da), d(db)).commit_fp(p, dst, dd)
    }

    /// A boolean chosen by the flags.
    pub open spec fn select(self, p: Plan, dst: VReg, c: Cond) -> St {
        let dr = dest(p, dst);
        self.ldl(xr(16), p.lit(p.true_lit)).ldl(xr(17), p.lit(p.false_lit)).i4(
            "csel"@,
            Operand::Reg(dr),
            x(16),
            x(17),
            Operand::Sym(c),
        ).commit(p, dst, dr)
    }

    pub open spec fn float_test(self, p: Plan, a: VReg, b: VReg) -> St {
        let (da, s1) = self.resolve_fp(p, a, 16);
        let (db, s2) = s1.resolve_fp(p, b, 17);
        s2.i2("fcmp"@, d(da), d(db))
    }

    /// Branches both ways on a condition.
    pub open spec fn branch_both(self, p: Plan, c: Cond, if_true: BlockId, if_false: BlockId) -> St {
        self.bc(c, p.labels@[if_true.0 as int]).b(p.labels@[if_false.0 as int])
    }

    pub open spec fn guard_klass(self, p: Plan, obj: VReg, expect: PoolLit, fail: BlockId, kind: GuardShape) -> St {
        let (ro, s) = self.resolve(p, obj, 16);
        let cold = p.labels@[fail.0 as int];
        match kind {
            GuardShape::SmiTest => s.i2("tst"@, Operand::Reg(ro), imm(3)).bc(Cond::Ne, cold),
            GuardShape::KlassTest => s.i2("tst"@, Operand::Reg(ro), imm(3)).bc(Cond::Eq, cold).i2(
                "ldur"@,
                x(17),
                mem(ro.num, 7),
            ).ldl(xr(16), p.lit(expect)).i2("cmp"@, x(17), x(16)).bc(Cond::Ne, cold),
            GuardShape::ValueTest => s.ldl(xr(17), p.lit(expect)).i2("cmp"@, Operand::Reg(ro), x(17)).bc(
                Cond::Ne,
                cold,
            ),
        }
    }

    /// The first `k` tests of a membership guard: each but the last branches out on a match.
    pub open spec fn klass_tests(self, p: Plan, expects: Seq<PoolLit>, ok: Label, cold: Label, k: int) -> St
        decreases k,
    {
        if k <= 0 {
            self
        } else {
            let s = self.klass_tests(p, expects, ok, cold, k - 1).ldl(xr(16), p.lit(expects[k - 1])).i2(
                "cmp"@,
                x(17),
                x(16),
            );
            if k == expects.len() {
                s.bc(Cond::Ne, cold)
            } else {
                s.bc(Cond::Eq, ok)
            }
        }
    }

    pub open spec fn guard_klass_in(self, p: Plan, obj: VReg, expects: Seq<PoolLit>, fail: BlockId) -> St {
        let (ro, s) = self.resolve(p, obj, 16);
        let cold = p.labels@[fail.0 as int];
        let s1 = s.i2("tst"@, Operand::Reg(ro), imm(3)).bc(Cond::Eq, cold).i2("ldur"@, x(17), mem(ro.num, 7));
        let ok = s1.code.next_label();
        s1.lab().klass_tests(p, expects, ok, cold, expects.len() as int).bind(ok)
    }

    /// Both operands tested for small integers, then compared.
    pub open spec fn smi_test(self, p: Plan, a: VReg, b: VReg, fail: BlockId) -> St {
        let (ra, s1) = self.resolve(p, a, 16);
        let (rb, s2) = s1.resolve(p, b, 17);
        s2.tag_check(p, a, ra, b, rb, fail).i2("cmp"@, Operand::Reg(ra), Operand::Reg(rb))
    }

    pub open spec fn ref_test(self, p: Plan, a: VReg, b: VReg) -> St {
        let (ra, s1) = self.resolve(p, a, 16);
        let (rb, s2) = s1.resolve(p, b, 17);
        s2.i2("cmp"@, Operand::Reg(ra), Operand::Reg(rb))
    }

    pub open spec fn ref_br(
        self,
        p: Plan,
        a: VReg,
        b: VReg,
        neq: bool,
        if_true: BlockId,
        if_false: BlockId,
        following: Option<BlockId>,
    ) -> St {
        let s = self.ref_test(p, a, b).bc(eq_cond(neq), p.labels@[if_true.0 as int]);
        if following != Some(if_false) {
            s.b(p.labels@[if_false.0 as int])
        } else {
            s
        }
    }

    pub open spec fn bool_not(self, p: Plan, dst: VReg, src: VReg, fail: BlockId) -> St {
        let (rv, s) = self.resolve(p, src, 16);
        let cold = p.labels@[fail.0 as int];
        let s1 = s.ldl(xr(17), p.lit(p.true_lit)).i2("cmp"@, Operand::Reg(rv), x(17));
        let not_true = s1.code.next_label();
        let s2 = s1.lab();
        let done = s2.code.next_label();
        let dr = dest(p, dst);
        s2.lab().bc(Cond::Ne, not_true).ldl(dr, p.lit(p.false_lit)).b(done).bind(not_true).ldl(
            xr(17),
            p.lit(p.false_lit),
        ).i2("cmp"@, Operand::Reg(rv), x(17)).bc(Cond::Ne, cold).ldl(dr, p.lit(p.true_lit)).bind(done).commit(
            p,
            dst,
            dr,
        )
    }

    pub open spec fn bool_br(self, p: Plan, val: VReg, if_true: BlockId, if_false: BlockId, not_bool: BlockId) -> St {
        let (rv, s) = self.resolve(p, val, 16);
        s.ldl(xr(17), p.lit(p.true_lit)).i2("cmp"@, Operand::Reg(rv), x(17)).bc(
            Cond::Eq,
            p.labels@[if_true.0 as int],
        ).ldl(xr(17), p.lit(p.false_lit)).i2("cmp"@, Operand::Reg(rv), x(17)).bc(
            Cond::Eq,
            p.labels@[if_false.0 as int],
        ).b(p.labels@[not_bool.0 as int])
    }

    pub open spec fn poll(self, p: Plan) -> St {
        let skip = self.code.next_label();
        let s = self.lab().i2("ldr"@, w(16), mem(28, VMREG_POLL_FLAG_OFFSET)).cbz(xr(16), skip).s2_stores(p).far(
            p.stubs.poll,
        ).safepoint();
        s.reloads_at(p, s.pos, None).bind(skip)
    }

    pub open spec fn uncommon_trap(self, p: Plan) -> St {
        self.s2_stores(p).safepoint().raw(brk_word(TRAP_UNCOMMON))
    }

    /// Leaves through the epilogue where a call answers the unwinding sentinel.
    pub open spec fn nlr_check(self, p: Plan) -> St {
        self.i3("sub"@, x(17), x(0), imm(NLR_SENTINEL)).cbz(xr(17), p.epilogue)
    }

    /// After a call: the sentinel check, the reloads where residents live across calls, the
    /// result in its home.
    pub open spec fn after_call(self, p: Plan, dst: VReg) -> St {
        let s = self.nlr_check(p);
        let s1 = if p.resident_across_calls {
            s.reloads_at(p, s.pos, Some(dst))
        } else {
            s
        };
        let dr = dest(p, dst);
        let s2 = if dr.num != 0 {
            s1.i2("mov"@, Operand::Reg(dr), x(0))
        } else {
            s1
        };
        s2.commit(p, dst, dr)
    }

    pub open spec fn call_runtime(self, p: Plan, dst: VReg, arg: VReg) -> St {
        let (ra, s) = self.resolve(p, arg, 16);
        let s1 = if ra.num != 0 {
            s.i2("mov"@, x(0), Operand::Reg(ra))
        } else {
            s
        };
        s1.s2_stores(p).far(p.stubs.must_be_boolean).safepoint().after_call(p, dst)
    }

    /// Answers a value: in `x0`, then to the epilogue.
    pub open spec fn ret(self, p: Plan, v: VReg) -> St {
        let (rv, s) = self.resolve(p, v, 0);
        let s1 = if rv.num != 0 {
            s.i2("mov"@, x(0), Operand::Reg(rv))
        } else {
            s
        };
        s1.b(p.epilogue)
    }

    pub open spec fn nlr_return(self, p: Plan, closure: VReg, value: VReg) -> St {
        let (rc, s) = self.resolve(p, closure, 16);
        let s1 = if rc.num != 16 {
            s.i2("mov"@, x(16), Operand::Reg(rc))
        } else {
            s
        };
        let (rv, s2) = s1.resolve(p, value, 17);
        let s3 = if rv.num != 17 {
            s2.i2("mov"@, x(17), Operand::Reg(rv))
        } else {
            s2
        };
        s3.i2("mov"@, x(0), x(16)).i2("mov"@, x(1), x(17)).s2_stores(p).far(p.stubs.nlr_originate).safepoint().i2(
            "movz"@,
            x(0),
            imm(NLR_SENTINEL),
        ).b(p.epilogue)
    }

    pub open spec fn const_pool(self, p: Plan, dst: VReg, lit: PoolLit) -> St {
        match p.home(dst) {
            Assignment::Reg(r) => self.ldl(xr(r), p.lit(lit)),
            Assignment::Spill(slot) => {
                let dl = dest_direct(p, dst);
                self.ldl(dl, p.lit(lit)).spill_access("str"@, Operand::Reg(dl), slot).refresh(p, dst, dl)
            },
        }
    }

    pub open spec fn move_value(self, p: Plan, dst: VReg, src: VReg) -> St {
        if p.vreg_is_fp@[dst.0 as int] {
            let (ds, s) = self.resolve_fp(p, src, 16);
            let dd = dest_fp(p, dst);
            let s1 = if dd != ds {
                s.i2("fmov"@, d(dd), d(ds))
            } else {
                s
            };
            s1.commit_fp(p, dst, dd)
        } else {
            let (rs, s) = self.resolve(p, src, 16);
            let dr = dest_direct(p, dst);
            let s1 = if dr.num != rs.num {
                s.i2("mov"@, Operand::Reg(dr), Operand::Reg(rs))
            } else {
                s
            };
            s1.commit(p, dst, dr)
        }
    }

    pub open spec fn param(self, p: Plan, dst: VReg, index: u8) -> St {
        match p.home(dst) {
            Assignment::Reg(r) => if r != index {
                self.i2("mov"@, x(r), x(index))
            } else {
                self
            },
            Assignment::Spill(slot) => self.spill_access("str"@, x(index), slot).refresh(p, dst, xr(index)),
        }
    }

    pub open spec fn smi_noov(self, p: Plan, op: SmiOp, dst: VReg, a: VReg, b: VReg) -> St {
        let (ra, s1) = self.resolve(p, a, 16);
        let (rb, s2) = s1.resolve(p, b, 17);
        let dr = dest_direct(p, dst);
        let s3 = if op is Mul {
            s2.i3("asr"@, x(16), Operand::Reg(ra), imm(2)).i3("mul"@, Operand::Reg(dr), x(16), Operand::Reg(rb))
        } else {
            s2.i3(addsub_name(op), Operand::Reg(dr), Operand::Reg(ra), Operand::Reg(rb))
        };
        s3.commit(p, dst, dr)
    }

    pub open spec fn smi_noov_imm(self, p: Plan, op: SmiOp, dst: VReg, a: VReg, v: i64) -> St {
        let (ra, s1) = self.resolve(p, a, 16);
        let dr = dest_direct(p, dst);
        s1.i3(addsub_name(op), Operand::Reg(dr), Operand::Reg(ra), imm((4 * v) as i64)).commit(p, dst, dr)
    }
}

/// The instruction of a simple operation.
pub open spec fn simple_name(op: SmiOp) -> Seq<char> {
    match op {
        SmiOp::Add => "adds"@,
        SmiOp::Sub => "subs"@,
        SmiOp::And => "and"@,
        SmiOp::Or => "orr"@,
        _ => "eor"@,
    }
}

/// The instruction of an operation that cannot overflow.
pub open spec fn addsub_name(op: SmiOp) -> Seq<char> {
    if op is Add {
        "add"@
    } else {
        "sub"@
    }
}

/// The instruction of a float operation.
pub open spec fn float_name(op: FArithOp) -> Seq<char> {
    match op {
        FArithOp::Add => "fadd"@,
        FArithOp::Sub => "fsub"@,
        FArithOp::Mul => "fmul"@,
        FArithOp::Div => "fdiv"@,
    }
}

/// The instruction of a vector operation.
pub open spec fn vec_name(kind: VecKind, op: FArithOp) -> Seq<char> {
    if kind is I32x4 {
        match op {
            FArithOp::Add => "add"@,
            FArithOp::Sub => "sub"@,
            _ => "mul"@,
        }
    } else {
        float_name(op)
    }
}

/// A vector register in the arrangement of its class.
pub open spec fn varr(kind: VecKind, n: u8) -> Operand {
    match kind {
        VecKind::F64x2 => v2d(n),
        _ => v4s(n),
    }
}

/// The class of a vector.
pub open spec fn vec_klass(p: Plan, kind: VecKind) -> LiteralId {
    match kind {
        VecKind::F64x2 => p.lit(p.float64x2_klass_lit),
        VecKind::F32x4 => p.lit(p.float32x4_klass_lit),
        VecKind::I32x4 => p.lit(p.int32x4_klass_lit),
    }
}

/// The stub that boxes a vector.
pub open spec fn vec_stub(p: Plan, kind: VecKind) -> LiteralId {
    match kind {
        VecKind::F64x2 => p.stubs.box_float64x2,
        VecKind::F32x4 => p.stubs.box_float32x4,
        VecKind::I32x4 => p.stubs.box_int32x4,
    }
}

/// The condition of an identity test.
pub open spec fn eq_cond(neq: bool) -> Cond {
    if neq {
        Cond::Ne
    } else {
        Cond::Eq
    }
}

impl<'a, A: Assembler> Emitter<'a, A> {
    #[verifier::spinoff_prover]
    pub(crate) fn emit_indexed_guards(&mut self, robj: Reg, ridx: Reg, klass: PoolLit, size_off: i64, fail: BlockId)
        requires
            old(self).ok(),
            good(robj),
            good(ridx),
            old(self).p.lit_ok(klass),
            old(self).p.block(fail),
            -256 <= size_off <= 255,
        ensures
            *final(final(self).out) == *final(old(self).out),
            next(
                *old(self),
                *final(self),
                old(self).st().indexed_guards(
                    robj,
                    ridx,
                    old(self).p.lit(klass),
                    size_off,
                    old(self).p.labels@[fail.0 as int],
                ),
            ),
    {
        proof {
            lemma_mnemonics();
        }
        let fail_l: Label = self.block_label(fail);
        let kl: LiteralId = self.lit(klass);
        self.i3("and", x(19), Operand::Reg(robj), imm(3));
        self.i2("cmp", x(19), imm(1));
        self.bc(Cond::Ne, fail_l);
        self.i2("ldur", x(19), mem(robj.num, 7));
        self.ldl(xr(20), kl);
        self.i2("cmp", x(19), x(20));
        self.bc(Cond::Ne, fail_l);
        self.i2("tst", Operand::Reg(ridx), imm(3));
        self.bc(Cond::Ne, fail_l);
        self.i2("ldur", x(19), mem(robj.num, size_off));
        self.i3("sub", x(20), Operand::Reg(ridx), imm(4));
        self.i2("cmp", x(20), x(19));
        self.bc(Cond::Hs, fail_l);
    }

    #[verifier::spinoff_prover]
    pub(crate) fn emit_array_guards(&mut self, rarr: Reg, ridx: Reg, g: Option<(PoolLit, BlockId)>)
        requires
            old(self).ok(),
            good(rarr),
            good(ridx),
            g matches Some((klass, fail)) ==> old(self).p.lit_ok(klass) && old(self).p.block(fail),
        ensures
            *final(final(self).out) == *final(old(self).out),
            next(*old(self), *final(self), old(self).st().opt_array_guards(*old(self).p, rarr, ridx, g)),
    {
        match g {
            Some((klass, fail)) => {
                self.emit_indexed_guards(rarr, ridx, klass, 15, fail);
            },
            None => {},
        }
    }

    #[verifier::spinoff_prover]
    pub(crate) fn emit_array_at(&mut self, dst: VReg, arr: VReg, idx: VReg, g: Option<(PoolLit, BlockId)>)
        requires
            old(self).ok(),
            old(self).p.has(dst),
            old(self).p.has(arr),
            old(self).p.has(idx),
            g matches Some((klass, fail)) ==> old(self).p.lit_ok(klass) && old(self).p.block(fail),
        ensures
            *final(final(self).out) == *final(old(self).out),
            next(*old(self), *final(self), old(self).st().array_at(*old(self).p, dst, arr, idx, g)),
    {
        proof {
            lemma_mnemonics();
        }
        let rarr: Reg = self.resolve(arr, 16);
        let ridx: Reg = self.resolve(idx, 17);
        self.emit_array_guards(rarr, ridx, g);
        self.i3("add", x(19), Operand::Reg(rarr), Operand::Reg(ridx));
        self.i3("add", x(19), x(19), Operand::Reg(ridx));
        let dr: Reg = self.dest_target(dst);
        self.i2("ldur", Operand::Reg(dr), mem(19, 15));
        self.commit(dst, dr);
    }

    #[verifier::spinoff_prover]
    fn resolve_value(&mut self, v: VReg) -> (r: Reg)
        requires
            old(self).ok(),
            old(self).p.has(v),
        ensures
            *final(final(self).out) == *final(old(self).out),
            r == old(self).st().resolve_value(*old(self).p, v).0,
            next(*old(self), *final(self), old(self).st().resolve_value(*old(self).p, v).1),
            good(r),
    {
        match self.p.resident[v.0 as usize] {
            Some(rr) => {
                return xr(rr);
            },
            None => {},
        }
        match self.assignment_of(v) {
            Assignment::Reg(r) => xr(r),
            Assignment::Spill(slot) => {
                self.emit_spill_access_via("ldr", x(16), slot, 20);
                xr(16)
            },
        }
    }

    #[verifier::spinoff_prover]
    pub(crate) fn emit_card_barrier(&mut self, robj: Reg, rval: Reg, base: Operand, off: i64)
        requires
            old(self).ok(),
            good(robj),
            good(rval),
            base matches Operand::Reg(r) && good(r),
            0 <= off < 4096,
        ensures
            *final(final(self).out) == *final(old(self).out),
            next(*old(self), *final(self), old(self).st().card_barrier(robj, rval, base, off)),
    {
        proof {
            lemma_mnemonics();
        }
        let skip: Label = self.lab();
        self.i2("ldr", x(20), mem(28, VMREG_OLD_START_OFFSET));
        self.i2("cmp", Operand::Reg(robj), x(20));
        self.bc(Cond::Lo, skip);
        self.i2("tst", Operand::Reg(rval), imm(3));
        self.bc(Cond::Eq, skip);
        self.i2("cmp", Operand::Reg(rval), x(20));
        self.bc(Cond::Hs, skip);
        self.i3("add", x(19), base, imm(off));
        self.i3("lsr", x(19), x(19), imm(CARD_SHIFT_IMM));
        self.i2("ldr", x(20), mem(28, VMREG_CARD_BASE_BIASED_OFFSET));
        self.i3("add", x(20), x(20), x(19));
        self.i2("strb", x(31), mem(20, 0));
        self.bind(skip);
    }

    #[verifier::spinoff_prover]
    pub(crate) fn emit_array_at_put(&mut self, dst: VReg, arr: VReg, idx: VReg, val: VReg, g: Option<(PoolLit, BlockId)>)
        requires
            old(self).ok(),
            old(self).p.has(dst),
            old(self).p.has(arr),
            old(self).p.has(idx),
            old(self).p.has(val),
            g matches Some((klass, fail)) ==> old(self).p.lit_ok(klass) && old(self).p.block(fail),
        ensures
            *final(final(self).out) == *final(old(self).out),
            next(*old(self), *final(self), old(self).st().array_at_put(*old(self).p, dst, arr, idx, val, g)),
    {
        proof {
            lemma_mnemonics();
        }
        let rarr: Reg = self.resolve(arr, 16);
        let ridx: Reg = self.resolve(idx, 17);
        self.emit_array_guards(rarr, ridx, g);
        self.i3("add", x(19), Operand::Reg(rarr), Operand::Reg(ridx));
        self.i3("add", x(19), x(19), Operand::Reg(ridx));
        let rval: Reg = self.resolve_value(val);
        self.i2("stur", Operand::Reg(rval), mem(19, 15));
        self.emit_card_barrier(rarr, rval, x(19), 15);
        self.commit(dst, rval);
    }

    #[verifier::spinoff_prover]
    pub(crate) fn emit_byte_at(
        &mut self,
        dst: VReg,
        obj: VReg,
        idx: VReg,
        klass: PoolLit,
        len_off: i32,
        tail_off: i32,
        fail: BlockId,
    )
        requires
            old(self).ok(),
            old(self).p.has(dst),
            old(self).p.has(obj),
            old(self).p.has(idx),
            old(self).p.lit_ok(klass),
            old(self).p.block(fail),
            -255 <= len_off <= 256,
            -254 <= tail_off <= 257,
        ensures
            *final(final(self).out) == *final(old(self).out),
            next(
                *old(self),
                *final(self),
                old(self).st().byte_at(*old(self).p, dst, obj, idx, klass, len_off, tail_off, fail),
            ),
    {
        proof {
            lemma_mnemonics();
        }
        let robj: Reg = self.resolve(obj, 16);
        let ridx: Reg = self.resolve(idx, 17);
        self.emit_indexed_guards(robj, ridx, klass, (len_off - 1) as i64, fail);
        self.i3("asr", x(19), Operand::Reg(ridx), imm(2));
        self.i3("add", x(19), x(19), Operand::Reg(robj));
        let dr: Reg = self.dest_target(dst);
        self.i2("ldurb", Operand::Reg(dr), mem(19, (tail_off - 2) as i64));
        self.i3("lsl", Operand::Reg(dr), Operand::Reg(dr), imm(2));
        self.commit(dst, dr);
    }

    #[verifier::spinoff_prover]
    pub(crate) fn emit_byte_at_put(
        &mut self,
        dst: VReg,
        obj: VReg,
        idx: VReg,
        val: VReg,
        klass: PoolLit,
        len_off: i32,
        tail_off: i32,
        fail: BlockId,
    )
        requires
            old(self).ok(),
            old(self).p.has(dst),
            old(self).p.has(obj),
            old(self).p.has(idx),
            old(self).p.has(val),
            old(self).p.lit_ok(klass),
            old(self).p.block(fail),
            -255 <= len_off <= 256,
            -254 <= tail_off <= 257,
        ensures
            *final(final(self).out) == *final(old(self).out),
            next(
                *old(self),
                *final(self),
                old(self).st().byte_at_put(*old(self).p, dst, obj, idx, val, klass, len_off, tail_off, fail),
            ),
    {
        proof {
            lemma_mnemonics();
        }
        let robj: Reg = self.resolve(obj, 16);
        let ridx: Reg = self.resolve(idx, 17);
        self.emit_indexed_guards(robj, ridx, klass, (len_off - 1) as i64, fail);
        let fail_l: Label = self.block_label(fail);
        self.i3("asr", x(19), Operand::Reg(ridx), imm(2));
        self.i3("add", x(19), x(19), Operand::Reg(robj));
        let rval: Reg = self.resolve_value(val);
        self.i2("tst", Operand::Reg(rval), imm(3));
        self.bc(Cond::Ne, fail_l);
        self.i2("cmp", Operand::Reg(rval), imm(1020));
        self.bc(Cond::Hi, fail_l);
        self.i3("asr", x(20), Operand::Reg(rval), imm(2));
        self.i2("sturb", x(20), mem(19, (tail_off - 2) as i64));
        self.commit(dst, rval);
    }

    #[verifier::spinoff_prover]
    pub(crate) fn emit_smi_arith_simple(&mut self, op: SmiOp, dst: VReg, a: VReg, b: VReg, fail: BlockId)
        requires
            old(self).ok(),
            old(self).p.has(dst),
            old(self).p.has(a),
            old(self).p.has(b),
            old(self).p.block(fail),
            !(op is Mul || op is Div || op is Mod),
        ensures
            *final(final(self).out) == *final(old(self).out),
            next(*old(self), *final(self), old(self).st().smi_simple(*old(self).p, op, dst, a, b, fail)),
    {
        proof {
            lemma_mnemonics();
        }
        let ra: Reg = self.resolve(a, 16);
        let rb: Reg = self.resolve(b, 17);
        self.emit_tag_check(a, ra, b, rb, fail);
        let dr: Reg = self.dest_target_direct(dst);
        let m: &str = match op {
            SmiOp::Add => "adds",
            SmiOp::Sub => "subs",
            SmiOp::And => "and",
            SmiOp::Or => "orr",
            _ => "eor",
        };
        self.i3(m, Operand::Reg(dr), Operand::Reg(ra), Operand::Reg(rb));
        match op {
            SmiOp::Add | SmiOp::Sub => {
                let l: Label = self.block_label(fail);
                self.bc(Cond::Vs, l);
            },
            _ => {},
        }
        self.commit(dst, dr);
    }

    #[verifier::spinoff_prover]
    pub(crate) fn emit_smi_shift(&mut self, dst: VReg, a: VReg, count: VReg, fail: BlockId)
        requires
            old(self).ok(),
            old(self).p.has(dst),
            old(self).p.has(a),
            old(self).p.has(count),
            old(self).p.block(fail),
        ensures
            *final(final(self).out) == *final(old(self).out),
            next(*old(self), *final(self), old(self).st().smi_shift(*old(self).p, dst, a, count, fail)),
    {
        proof {
            lemma_mnemonics();
        }
        let ra: Reg = self.resolve(a, 16);
        let rc: Reg = self.resolve(count, 17);
        let fail_l: Label = self.block_label(fail);
        self.i2("tst", Operand::Reg(ra), imm(3));
        self.bc(Cond::Ne, fail_l);
        self.i2("tst", Operand::Reg(rc), imm(3));
        self.bc(Cond::Ne, fail_l);
        self.i3("add", x(19), Operand::Reg(rc), imm(244));
        self.i2("cmp", x(19), imm(488));
        self.bc(Cond::Hi, fail_l);
        self.i3("asr", x(19), Operand::Reg(rc), imm(2));
        let right: Label = self.lab();
        let done: Label = self.lab();
        let dr: Reg = self.dest_target(dst);
        self.i2("cmp", x(19), imm(0));
        self.bc(Cond::Lt, right);
        self.i3("lslv", x(20), Operand::Reg(ra), x(19));
        self.i3("asrv", x(19), x(20), x(19));
        self.i2("cmp", x(19), Operand::Reg(ra));
        self.bc(Cond::Ne, fail_l);
        self.i2("mov", Operand::Reg(dr), x(20));
        self.b(done);
        self.bind(right);
        self.i2("neg", x(19), x(19));
        self.i3("asrv", x(20), Operand::Reg(ra), x(19));
        self.i3("and", Operand::Reg(dr), x(20), imm(-4));
        self.bind(done);
        self.commit(dst, dr);
    }

    #[verifier::spinoff_prover]
    pub(crate) fn emit_smi_mul(&mut self, dst: VReg, a: VReg, b: VReg, fail: BlockId)
        requires
            old(self).ok(),
            old(self).p.has(dst),
            old(self).p.has(a),
            old(self).p.has(b),
            old(self).p.block(fail),
        ensures
            *final(final(self).out) == *final(old(self).out),
            next(*old(self), *final(self), old(self).st().smi_mul(*old(self).p, dst, a, b, fail)),
    {
        proof {
            lemma_mnemonics();
        }
        let ra: Reg = self.resolve(a, 16);
        let rb0: Reg = self.resolve(b, 17);
        self.emit_tag_check(a, ra, b, rb0, fail);
        self.i3("asr", x(16), Operand::Reg(ra), imm(2));
        let rb1: Reg = self.resolve(b, 17);
        self.i3("mul", x(17), x(16), Operand::Reg(rb1));
        match self.assignment_of(dst) {
            Assignment::Reg(r) => {
                self.i2("mov", x(r), x(17));
            },
            Assignment::Spill(slot) => {
                self.emit_spill_access("str", x(17), slot);
            },
        }
        let rb2: Reg = self.resolve(b, 17);
        self.i3("smulh", x(16), x(16), Operand::Reg(rb2));
        let low: Reg = match self.assignment_of(dst) {
            Assignment::Reg(r) => xr(r),
            Assignment::Spill(slot) => {
                self.emit_spill_access("ldr", x(17), slot);
                xr(17)
            },
        };
        self.i2("cmp", x(16), Operand::RegShift(low, Shift::Asr, 63));
        let l: Label = self.block_label(fail);
        self.bc(Cond::Ne, l);
        self.refresh_resident(dst, low);
    }

    #[verifier::spinoff_prover]
    pub(crate) fn emit_smi_divmod(&mut self, op: SmiOp, dst: VReg, a: VReg, b: VReg, fail: BlockId)
        requires
            old(self).ok(),
            old(self).p.has(dst),
            old(self).p.has(a),
            old(self).p.has(b),
            old(self).p.block(fail),
            op is Div || op is Mod,
        ensures
            *final(final(self).out) == *final(old(self).out),
            next(*old(self), *final(self), old(self).st().smi_divmod(*old(self).p, op, dst, a, b, fail)),
    {
        proof {
            lemma_mnemonics();
        }
        let ra: Reg = self.resolve(a, 16);
        let rb: Reg = self.resolve(b, 17);
        self.emit_tag_check(a, ra, b, rb, fail);
        let l: Label = self.block_label(fail);
        self.cbz(rb, l);
        self.i3("asr", x(19), Operand::Reg(ra), imm(2));
        self.i3("asr", x(20), Operand::Reg(rb), imm(2));
        self.i3("sdiv", x(16), x(19), x(20));
        self.i4("msub", x(17), x(16), x(20), x(19));
        let done: Label = self.lab();
        self.cbz(xr(17), done);
        self.i3("eor", x(19), x(17), x(20));
        self.i2("cmp", x(19), imm(0));
        self.bc(Cond::Ge, done);
        self.i3("sub", x(16), x(16), imm(1));
        self.i3("add", x(17), x(17), x(20));
        self.bind(done);
        let dr: Reg = self.dest_target_direct(dst);
        match op {
            SmiOp::Div => {
                self.i3("lsl", x(19), x(16), imm(2));
                self.i2("cmp", x(16), Operand::RegShift(xr(19), Shift::Asr, 2));
                self.bc(Cond::Ne, l);
                self.i2("mov", Operand::Reg(dr), x(19));
            },
            _ => {
                self.i3("lsl", Operand::Reg(dr), x(17), imm(2));
            },
        }
        self.commit(dst, dr);
    }

    #[verifier::spinoff_prover]
    pub(crate) fn emit_load_field(&mut self, dst: VReg, obj: VReg, byte_off: i32)
        requires
            old(self).ok(),
            old(self).p.has(dst),
            old(self).p.has(obj),
            load_off_ok(byte_off),
        ensures
            *final(final(self).out) == *final(old(self).out),
            next(*old(self), *final(self), old(self).st().load_field(*old(self).p, dst, obj, byte_off)),
    {
        proof {
            lemma_mnemonics();
        }
        let ra: Reg = self.resolve(obj, 16);
        let dr: Reg = self.dest_target(dst);
        let off: i64 = byte_off as i64 - 1;
        if -256 <= off && off <= 255 {
            self.i2("ldur", Operand::Reg(dr), mem(ra.num, off));
        } else {
            self.i3("sub", x(16), Operand::Reg(ra), imm(1));
            self.i2("ldr", Operand::Reg(dr), mem(16, byte_off as i64));
        }
        self.commit(dst, dr);
    }

    #[verifier::spinoff_prover]
    pub(crate) fn emit_store_field(&mut self, obj: VReg, byte_off: i32, val: VReg, barrier: bool)
        requires
            old(self).ok(),
            old(self).p.has(obj),
            old(self).p.has(val),
            store_off_ok(byte_off, barrier),
        ensures
            *final(final(self).out) == *final(old(self).out),
            next(*old(self), *final(self), old(self).st().store_field(*old(self).p, obj, byte_off, val, barrier)),
    {
        proof {
            lemma_mnemonics();
        }
        let robj: Reg = self.resolve(obj, 16);
        let rval: Reg = self.resolve(val, 17);
        let off: i64 = byte_off as i64 - 1;
        if -256 <= off && off <= 255 {
            self.i2("stur", Operand::Reg(rval), mem(robj.num, off));
        } else {
            self.i3("add", x(19), Operand::Reg(robj), imm(off));
            self.i2("str", Operand::Reg(rval), mem(19, 0));
        }
        if barrier {
            self.emit_card_barrier(robj, rval, Operand::Reg(robj), off);
        }
    }

    /// Tries the method's primitive before its own code.
    #[verifier::spinoff_prover]
    pub fn emit_prim_shim(&mut self, prim_id: i64, argc: u8, epilogue: Label)
        requires
            old(self).ok(),
            0 <= prim_id < 65536,
            old(self).p.globals().contains(epilogue.0),
        ensures
            *final(final(self).out) == *final(old(self).out),
            next(*old(self), *final(self), old(self).st().prim_shim(*old(self).p, prim_id, argc, epilogue)),
    {
        proof {
            lemma_mnemonics();
        }
        let fail: Label = self.lab();
        match self.p.leaf_prim_lits {
            Some((rt, f)) => {
                self.i3("stp", x(29), x(30), mem_pre(31, -64));
                self.i2("mov", x(29), sp());
                self.i3("stp", x(0), x(1), mem(31, 16));
                self.i3("stp", x(2), x(3), mem(31, 32));
                self.i3("stp", x(4), x(5), mem(31, 48));
                self.i2("mov", x(0), x(28));
                self.i3("add", x(1), sp(), imm(16));
                self.i2("movz", x(2), imm(argc as i64));
                self.ldl(xr(3), f);
                self.far(rt);
                self.i2("cmp", x(0), imm(PRIM_FAIL_SENTINEL));
                self.bc(Cond::Eq, fail);
                self.i3("ldp", x(29), x(30), mem_post(31, 64));
                self.b(epilogue);
                self.bind(fail);
                self.i3("ldp", x(0), x(1), mem(31, 16));
                self.i3("ldp", x(2), x(3), mem(31, 32));
                self.i3("ldp", x(4), x(5), mem(31, 48));
                self.i3("ldp", x(29), x(30), mem_post(31, 64));
            },
            None => {
                self.i2("movz", x(10), imm(prim_id));
                self.i2("movz", x(11), imm(argc as i64));
                self.far(self.p.stubs.call_primitive);
                self.safepoint();
                self.i2("cmp", x(16), imm(PRIM_FAIL_SENTINEL));
                self.bc(Cond::Eq, fail);
                self.i2("mov", x(0), x(16));
                self.b(epilogue);
                self.bind(fail);
            },
        }
    }

    #[verifier::spinoff_prover]
    pub(crate) fn emit_bump(&mut self, size: i64, slow: Label)
        requires
            old(self).ok(),
            0 <= size < 4096,
        ensures
            *final(final(self).out) == *final(old(self).out),
            stepped(*old(self), *final(self), old(self).st().bump(size, slow)),
            final(self).st().code.open_labels().subset_of(
                old(self).st().code.open_labels().union(old(self).p.globals()).insert(slow.0),
            ),
    {
        proof {
            lemma_mnemonics();
        }
        self.i2("ldr", x(20), mem(28, VMREG_EDEN_TOP_ADDR_OFFSET));
        self.i2("ldr", x(19), mem(20, 0));
        self.i3("add", x(17), x(19), imm(size));
        self.i2("ldr", x(19), mem(28, VMREG_EDEN_END_OFFSET));
        self.i2("cmp", x(17), x(19));
        self.bc(Cond::Hi, slow);
        self.i2("str", x(17), mem(20, 0));
        self.i3("sub", x(19), x(17), imm(size));
    }

    #[verifier::spinoff_prover]
    pub(crate) fn emit_header(&mut self, mark: LiteralId, klass: LiteralId)
        requires
            old(self).ok(),
            mark.0 < old(self).st().code.pool.len(),
            klass.0 < old(self).st().code.pool.len(),
        ensures
            *final(final(self).out) == *final(old(self).out),
            next(*old(self), *final(self), old(self).st().header(mark, klass)),
    {
        proof {
            lemma_mnemonics();
        }
        self.ldl(xr(17), mark);
        self.i2("str", x(17), mem(19, 0));
        self.ldl(xr(17), klass);
        self.i2("str", x(17), mem(19, 8));
    }

    #[verifier::spinoff_prover]
    pub(crate) fn emit_nil_fill(&mut self, nil: LiteralId, words: u32)
        requires
            old(self).ok(),
            nil.0 < old(self).st().code.pool.len(),
            words <= 510,
        ensures
            *final(final(self).out) == *final(old(self).out),
            next(*old(self), *final(self), old(self).st().nil_fill(nil, words as nat)),
    {
        proof {
            lemma_mnemonics();
        }
        if words > 0 {
            self.ldl(xr(17), nil);
            let ghost start = self.st();
            let mut i: u32 = 0;
            while i < words
                invariant
                    i <= words <= 510,
                    old(self).ok(),
                    *final(self.out) == *final(old(self).out),
                    start.code.labels.len() >= old(self).st().code.labels.len(),
                    next(*old(self), *self, start.fill(i as nat)),
                    start.code.pool == old(self).st().code.pool,
                    mnemonic_of("str"@) == Some(Mnemonic::Str),
                decreases words - i,
            {
                let off: i64 = 8 * (HEADER_WORDS as i64 + i as i64);
                self.i2("str", x(17), mem(19, off));
                i += 1;
            }
        }
    }

    #[verifier::spinoff_prover]
    pub(crate) fn emit_after_slow(&mut self, dst: VReg, dr: Reg, done: Label)
        requires
            old(self).ok(),
            old(self).p.has(dst),
            good(dr),
            done.0 < old(self).st().code.labels.len(),
        ensures
            *final(final(self).out) == *final(old(self).out),
            stepped(*old(self), *final(self), old(self).st().after_slow(*old(self).p, dst, dr, done)),
            final(self).st().code.open_labels().subset_of(
                old(self).st().code.open_labels().remove(done.0).union(old(self).p.globals()),
            ),
    {
        proof {
            lemma_mnemonics();
        }
        self.safepoint();
        self.emit_resident_reloads();
        if dr.num != 0 {
            self.i2("mov", Operand::Reg(dr), x(0));
        }
        self.bind(done);
        self.commit(dst, dr);
    }

    #[verifier::spinoff_prover]
    pub(crate) fn emit_alloc(&mut self, dst: VReg, klass: PoolLit, size_words: u32)
        requires
            old(self).ok(),
            old(self).p.has(dst),
            old(self).p.lit_ok(klass),
            HEADER_WORDS <= size_words < 512,
        ensures
            *final(final(self).out) == *final(old(self).out),
            next(*old(self), *final(self), old(self).st().alloc_object(*old(self).p, dst, klass, size_words)),
    {
        proof {
            lemma_mnemonics();
        }
        let size: i64 = size_words as i64 * WORD_SIZE;
        let dr: Reg = self.dest_target(dst);
        let slow: Label = self.lab();
        let done: Label = self.lab();
        let kl: LiteralId = self.lit(klass);
        let mark: LiteralId = self.lit(self.p.mark_slots_lit);
        let nil: LiteralId = self.lit(self.p.nil_lit);
        self.emit_bump(size, slow);
        self.emit_header(mark, kl);
        self.emit_nil_fill(nil, size_words - HEADER_WORDS);
        self.i3("add", Operand::Reg(dr), x(19), imm(MEM_TAG));
        self.b(done);
        self.bind(slow);
        self.ldl(xr(0), kl);
        self.emit_mov_imm64(xr(1), size as u64);
        self.emit_s2_spill_stores();
        self.far(self.p.stubs.alloc_slow);
        self.emit_after_slow(dst, dr, done);
    }

    #[verifier::spinoff_prover]
    pub(crate) fn emit_boxed_guard(&mut self, r: Reg, klass: LiteralId, cold: Label)
        requires
            old(self).ok(),
            klass.0 < old(self).st().code.pool.len(),
            old(self).p.globals().contains(cold.0),
            good(r),
        ensures
            *final(final(self).out) == *final(old(self).out),
            next(*old(self), *final(self), old(self).st().boxed_guard(r, klass, cold)),
    {
        proof {
            lemma_mnemonics();
        }
        self.i2("tst", Operand::Reg(r), imm(3));
        self.bc(Cond::Eq, cold);
        self.i3("sub", x(17), Operand::Reg(r), imm(1));
        self.i2("ldr", x(16), mem(17, 8));
        self.ldl(xr(19), klass);
        self.i2("cmp", x(16), x(19));
        self.bc(Cond::Ne, cold);
    }

    #[verifier::spinoff_prover]
    pub(crate) fn emit_funbox(&mut self, dst: VReg, src: VReg, fail: BlockId)
        requires
            old(self).ok(),
            old(self).p.has(dst),
            old(self).p.has(src),
            old(self).p.block(fail),
        ensures
            *final(final(self).out) == *final(old(self).out),
            next(*old(self), *final(self), old(self).st().funbox(*old(self).p, dst, src, fail)),
    {
        proof {
            lemma_mnemonics();
        }
        let robj: Reg = self.resolve(src, 16);
        let cold: Label = self.block_label(fail);
        let kl: LiteralId = self.lit(self.p.double_klass_lit);
        self.emit_boxed_guard(robj, kl, cold);
        let dd: u8 = self.dest_target_fp(dst);
        self.i2("ldr", d(dd), mem(17, 16));
        self.commit_fp(dst, dd);
    }

    #[verifier::spinoff_prover]
    pub(crate) fn emit_fbox(&mut self, dst: VReg, src: VReg)
        requires
            old(self).ok(),
            old(self).p.has(dst),
            old(self).p.has(src),
        ensures
            *final(final(self).out) == *final(old(self).out),
            next(*old(self), *final(self), old(self).st().fbox(*old(self).p, dst, src)),
    {
        proof {
            lemma_mnemonics();
        }
        let ds: u8 = self.resolve_fp(src, 16);
        let dr: Reg = self.dest_target(dst);
        let slow: Label = self.lab();
        let done: Label = self.lab();
        let mark: LiteralId = self.lit(self.p.mark_double_lit);
        let kl: LiteralId = self.lit(self.p.double_klass_lit);
        self.emit_bump(24, slow);
        self.emit_header(mark, kl);
        self.i2("str", d(ds), mem(19, 16));
        self.i3("add", Operand::Reg(dr), x(19), imm(MEM_TAG));
        self.b(done);
        self.bind(slow);
        self.i2("fmov", x(0), d(ds));
        self.emit_s2_spill_stores();
        self.far(self.p.stubs.box_double);
        self.emit_after_slow(dst, dr, done);
    }

    #[verifier::spinoff_prover]
    fn vec_klass_lit(&self, kind: VecKind) -> (id: LiteralId)
        requires
            self.ok(),
        ensures
            id == vec_klass(*self.p, kind),
            id.0 < self.st().code.pool.len(),
    {
        match kind {
            VecKind::F64x2 => self.lit(self.p.float64x2_klass_lit),
            VecKind::F32x4 => self.lit(self.p.float32x4_klass_lit),
            VecKind::I32x4 => self.lit(self.p.int32x4_klass_lit),
        }
    }

    #[verifier::spinoff_prover]
    fn vec_box_stub(&self, kind: VecKind) -> (id: LiteralId)
        requires
            self.ok(),
        ensures
            id == vec_stub(*self.p, kind),
            id.0 < self.st().code.pool.len(),
    {
        match kind {
            VecKind::F64x2 => self.p.stubs.box_float64x2,
            VecKind::F32x4 => self.p.stubs.box_float32x4,
            VecKind::I32x4 => self.p.stubs.box_int32x4,
        }
    }

    #[verifier::spinoff_prover]
    pub(crate) fn emit_vec_op(&mut self, kind: VecKind, op: FArithOp)
        requires
            old(self).ok(),
            !(kind is I32x4 && op is Div),
        ensures
            *final(final(self).out) == *final(old(self).out),
            next(
                *old(self),
                *final(self),
                old(self).st().i3(vec_name(kind, op), varr(kind, 16), varr(kind, 16), varr(kind, 17)),
            ),
    {
        proof {
            lemma_mnemonics();
        }
        let m: &str = match kind {
            VecKind::I32x4 => match op {
                FArithOp::Add => "add",
                FArithOp::Sub => "sub",
                _ => "mul",
            },
            _ => match op {
                FArithOp::Add => "fadd",
                FArithOp::Sub => "fsub",
                FArithOp::Mul => "fmul",
                FArithOp::Div => "fdiv",
            },
        };
        match kind {
            VecKind::F64x2 => {
                self.i3(m, v2d(16), v2d(16), v2d(17));
            },
            _ => {
                self.i3(m, v4s(16), v4s(16), v4s(17));
            },
        }
    }

    #[verifier::spinoff_prover]
    pub(crate) fn emit_vecarith(&mut self, kind: VecKind, op: FArithOp, dst: VReg, a: VReg, b: VReg, fail: BlockId)
        requires
            old(self).ok(),
            old(self).p.has(dst),
            old(self).p.has(a),
            old(self).p.has(b),
            old(self).p.block(fail),
            !(kind is I32x4 && op is Div),
        ensures
            *final(final(self).out) == *final(old(self).out),
            next(*old(self), *final(self), old(self).st().vecarith(*old(self).p, kind, op, dst, a, b, fail)),
    {
        proof {
            lemma_mnemonics();
        }
        let cold: Label = self.block_label(fail);
        let klass: LiteralId = self.vec_klass_lit(kind);
        let stub: LiteralId = self.vec_box_stub(kind);
        let ra: Reg = self.resolve(a, 16);
        self.emit_boxed_guard(ra, klass, cold);
        self.i2("ldr", q(16), mem(17, 16));
        let rb: Reg = self.resolve(b, 16);
        self.emit_boxed_guard(rb, klass, cold);
        self.i2("ldr", q(17), mem(17, 16));
        self.emit_vec_op(kind, op);
        let dr: Reg = self.dest_target(dst);
        let slow: Label = self.lab();
        let done: Label = self.lab();
        let mark: LiteralId = self.lit(self.p.mark_double_lit);
        self.emit_bump(32, slow);
        self.emit_header(mark, klass);
        self.i2("str", q(16), mem(19, 16));
        self.i3("add", Operand::Reg(dr), x(19), imm(MEM_TAG));
        self.b(done);
        self.bind(slow);
        self.i2("umov", x(0), vd_lane(16, 0));
        self.i2("umov", x(1), vd_lane(16, 1));
        self.emit_s2_spill_stores();
        self.far(stub);
        self.emit_after_slow(dst, dr, done);
    }

    #[verifier::spinoff_prover]
    pub(crate) fn emit_farith(&mut self, op: FArithOp, dst: VReg, a: VReg, b: VReg)
        requires
            old(self).ok(),
            old(self).p.has(dst),
            old(self).p.has(a),
            old(self).p.has(b),
        ensures
            *final(final(self).out) == *final(old(self).out),
            next(*old(self), *final(self), old(self).st().farith(*old(self).p, op, dst, a, b)),
    {
        proof {
            lemma_mnemonics();
        }
        let da: u8 = self.resolve_fp(a, 16);
        let db: u8 = self.resolve_fp(b, 17);
        let dd: u8 = self.dest_target_fp(dst);
        let m: &str = match op {
            FArithOp::Add => "fadd",
            FArithOp::Sub => "fsub",
            FArithOp::Mul => "fmul",
            FArithOp::Div => "fdiv",
        };
        self.i3(m, d(dd), d(da), d(db));
        self.commit_fp(dst, dd);
    }

    #[verifier::spinoff_prover]
    pub(crate) fn emit_select(&mut self, dst: VReg, c: Cond)
        requires
            old(self).ok(),
            old(self).p.has(dst),
        ensures
            *final(final(self).out) == *final(old(self).out),
            next(*old(self), *final(self), old(self).st().select(*old(self).p, dst, c)),
    {
        proof {
            lemma_mnemonics();
        }
        let t: LiteralId = self.lit(self.p.true_lit);
        let f: LiteralId = self.lit(self.p.false_lit);
        self.ldl(xr(16), t);
        self.ldl(xr(17), f);
        let dr: Reg = self.dest_target(dst);
        self.i4("csel", Operand::Reg(dr), x(16), x(17), Operand::Sym(c));
        self.commit(dst, dr);
    }

    #[verifier::spinoff_prover]
    pub(crate) fn emit_float_test(&mut self, a: VReg, b: VReg)
        requires
            old(self).ok(),
            old(self).p.has(a),
            old(self).p.has(b),
        ensures
            *final(final(self).out) == *final(old(self).out),
            next(*old(self), *final(self), old(self).st().float_test(*old(self).p, a, b)),
    {
        proof {
            lemma_mnemonics();
        }
        let da: u8 = self.resolve_fp(a, 16);
        let db: u8 = self.resolve_fp(b, 17);
        self.i2("fcmp", d(da), d(db));
    }

    #[verifier::spinoff_prover]
    pub(crate) fn emit_fcmp_val(&mut self, op: CmpOp, dst: VReg, a: VReg, b: VReg)
        requires
            old(self).ok(),
            old(self).p.has(dst),
            old(self).p.has(a),
            old(self).p.has(b),
        ensures
            *final(final(self).out) == *final(old(self).out),
            next(
                *old(self),
                *final(self),
                old(self).st().float_test(*old(self).p, a, b).select(*old(self).p, dst, float_cond(op)),
            ),
    {
        self.emit_float_test(a, b);
        self.emit_select(dst, fcmp_cond(op));
    }

    #[verifier::spinoff_prover]
    pub(crate) fn emit_branch_both(&mut self, c: Cond, if_true: BlockId, if_false: BlockId)
        requires
            old(self).ok(),
            old(self).p.block(if_true),
            old(self).p.block(if_false),
        ensures
            *final(final(self).out) == *final(old(self).out),
            next(*old(self), *final(self), old(self).st().branch_both(*old(self).p, c, if_true, if_false)),
    {
        let t: Label = self.block_label(if_true);
        self.bc(c, t);
        let f: Label = self.block_label(if_false);
        self.b(f);
    }

    #[verifier::spinoff_prover]
    pub(crate) fn emit_fcmp_br(&mut self, op: CmpOp, a: VReg, b: VReg, if_true: BlockId, if_false: BlockId)
        requires
            old(self).ok(),
            old(self).p.has(a),
            old(self).p.has(b),
            old(self).p.block(if_true),
            old(self).p.block(if_false),
        ensures
            *final(final(self).out) == *final(old(self).out),
            next(
                *old(self),
                *final(self),
                old(self).st().float_test(*old(self).p, a, b).branch_both(
                    *old(self).p,
                    float_cond(op),
                    if_true,
                    if_false,
                ),
            ),
    {
        self.emit_float_test(a, b);
        self.emit_branch_both(fcmp_cond(op), if_true, if_false);
    }

    #[verifier::spinoff_prover]
    pub(crate) fn emit_guard_klass(&mut self, obj: VReg, expect: PoolLit, fail: BlockId, kind: GuardShape)
        requires
            old(self).ok(),
            old(self).p.has(obj),
            old(self).p.lit_ok(expect),
            old(self).p.block(fail),
        ensures
            *final(final(self).out) == *final(old(self).out),
            next(*old(self), *final(self), old(self).st().guard_klass(*old(self).p, obj, expect, fail, kind)),
    {
        proof {
            lemma_mnemonics();
        }
        let robj: Reg = self.resolve(obj, 16);
        let cold: Label = self.block_label(fail);
        let el: LiteralId = self.lit(expect);
        match kind {
            GuardShape::SmiTest => {
                self.i2("tst", Operand::Reg(robj), imm(3));
                self.bc(Cond::Ne, cold);
            },
            GuardShape::KlassTest => {
                self.i2("tst", Operand::Reg(robj), imm(3));
                self.bc(Cond::Eq, cold);
                self.i2("ldur", x(17), mem(robj.num, 7));
                self.ldl(xr(16), el);
                self.i2("cmp", x(17), x(16));
                self.bc(Cond::Ne, cold);
            },
            GuardShape::ValueTest => {
                self.ldl(xr(17), el);
                self.i2("cmp", Operand::Reg(robj), x(17));
                self.bc(Cond::Ne, cold);
            },
        }
    }

    #[verifier::spinoff_prover]
    pub(crate) fn emit_guard_klass_in(&mut self, obj: VReg, expects: &Vec<PoolLit>, fail: BlockId)
        requires
            old(self).ok(),
            old(self).p.has(obj),
            old(self).p.block(fail),
            forall|i: int| 0 <= i < expects@.len() ==> old(self).p.lit_ok(#[trigger] expects@[i]),
        ensures
            *final(final(self).out) == *final(old(self).out),
            next(*old(self), *final(self), old(self).st().guard_klass_in(*old(self).p, obj, expects@, fail)),
    {
        proof {
            lemma_mnemonics();
        }
        let robj: Reg = self.resolve(obj, 16);
        let cold: Label = self.block_label(fail);
        self.i2("tst", Operand::Reg(robj), imm(3));
        self.bc(Cond::Eq, cold);
        self.i2("ldur", x(17), mem(robj.num, 7));
        let ok: Label = self.lab();
        let ghost start = self.st();
        let n: usize = expects.len();
        let mut i: usize = 0;
        while i < n
            invariant
                i <= n,
                n == expects@.len(),
                old(self).ok(),
                *final(self.out) == *final(old(self).out),
                forall|k: int| 0 <= k < expects@.len() ==> old(self).p.lit_ok(#[trigger] expects@[k]),
                start.code.labels.len() >= old(self).st().code.labels.len(),
                ok.0 < start.code.labels.len(),
                self.st().code.labels.len() >= start.code.labels.len(),
                stepped(*old(self), *self, start.klass_tests(*old(self).p, expects@, ok, cold, i as int)),
                self.st().code.open_labels().subset_of(
                    old(self).st().code.open_labels().union(old(self).p.globals()).insert(ok.0),
                ),
                old(self).p.globals().contains(cold.0),
                mnemonic_of("cmp"@) == Some(Mnemonic::Compare),
            decreases n - i,
        {
            let el: LiteralId = self.lit(expects[i]);
            self.ldl(xr(16), el);
            self.i2("cmp", x(17), x(16));
            if i + 1 == n {
                self.bc(Cond::Ne, cold);
            } else {
                self.bc(Cond::Eq, ok);
            }
            i += 1;
        }
        self.bind(ok);
    }

    #[verifier::spinoff_prover]
    pub(crate) fn emit_smi_test(&mut self, a: VReg, b: VReg, fail: BlockId)
        requires
            old(self).ok(),
            old(self).p.has(a),
            old(self).p.has(b),
            old(self).p.block(fail),
        ensures
            *final(final(self).out) == *final(old(self).out),
            next(*old(self), *final(self), old(self).st().smi_test(*old(self).p, a, b, fail)),
    {
        proof {
            lemma_mnemonics();
        }
        let ra: Reg = self.resolve(a, 16);
        let rb: Reg = self.resolve(b, 17);
        self.emit_tag_check(a, ra, b, rb, fail);
        self.i2("cmp", Operand::Reg(ra), Operand::Reg(rb));
    }

    #[verifier::spinoff_prover]
    pub(crate) fn emit_smi_cmp_br(&mut self, op: CmpOp, a: VReg, b: VReg, if_true: BlockId, if_false: BlockId, fail: BlockId)
        requires
            old(self).ok(),
            old(self).p.has(a),
            old(self).p.has(b),
            old(self).p.block(if_true),
            old(self).p.block(if_false),
            old(self).p.block(fail),
        ensures
            *final(final(self).out) == *final(old(self).out),
            next(
                *old(self),
                *final(self),
                old(self).st().smi_test(*old(self).p, a, b, fail).branch_both(
                    *old(self).p,
                    int_cond(op),
                    if_true,
                    if_false,
                ),
            ),
    {
        self.emit_smi_test(a, b, fail);
        self.emit_branch_both(cmp_op_to_cond(op), if_true, if_false);
    }

    #[verifier::spinoff_prover]
    pub(crate) fn emit_smi_cmp_val(&mut self, op: CmpOp, dst: VReg, a: VReg, b: VReg, fail: BlockId)
        requires
            old(self).ok(),
            old(self).p.has(dst),
            old(self).p.has(a),
            old(self).p.has(b),
            old(self).p.block(fail),
        ensures
            *final(final(self).out) == *final(old(self).out),
            next(
                *old(self),
                *final(self),
                old(self).st().smi_test(*old(self).p, a, b, fail).select(*old(self).p, dst, int_cond(op)),
            ),
    {
        self.emit_smi_test(a, b, fail);
        self.emit_select(dst, cmp_op_to_cond(op));
    }

    #[verifier::spinoff_prover]
    pub(crate) fn emit_ref_test(&mut self, a: VReg, b: VReg)
        requires
            old(self).ok(),
            old(self).p.has(a),
            old(self).p.has(b),
        ensures
            *final(final(self).out) == *final(old(self).out),
            next(*old(self), *final(self), old(self).st().ref_test(*old(self).p, a, b)),
    {
        proof {
            lemma_mnemonics();
        }
        let ra: Reg = self.resolve(a, 16);
        let rb: Reg = self.resolve(b, 17);
        self.i2("cmp", Operand::Reg(ra), Operand::Reg(rb));
    }

    #[verifier::spinoff_prover]
    pub(crate) fn emit_ref_cmp_val(&mut self, dst: VReg, a: VReg, b: VReg, neq: bool)
        requires
            old(self).ok(),
            old(self).p.has(dst),
            old(self).p.has(a),
            old(self).p.has(b),
        ensures
            *final(final(self).out) == *final(old(self).out),
            next(
                *old(self),
                *final(self),
                old(self).st().ref_test(*old(self).p, a, b).select(*old(self).p, dst, eq_cond(neq)),
            ),
    {
        self.emit_ref_test(a, b);
        self.emit_select(dst, if neq { Cond::Ne } else { Cond::Eq });
    }

    #[verifier::spinoff_prover]
    pub(crate) fn emit_ref_br(
        &mut self,
        a: VReg,
        b: VReg,
        neq: bool,
        if_true: BlockId,
        if_false: BlockId,
        following: Option<BlockId>,
    )
        requires
            old(self).ok(),
            old(self).p.has(a),
            old(self).p.has(b),
            old(self).p.block(if_true),
            old(self).p.block(if_false),
        ensures
            *final(final(self).out) == *final(old(self).out),
            next(
                *old(self),
                *final(self),
                old(self).st().ref_br(*old(self).p, a, b, neq, if_true, if_false, following),
            ),
    {
        self.emit_ref_test(a, b);
        let t: Label = self.block_label(if_true);
        self.bc(if neq { Cond::Ne } else { Cond::Eq }, t);
        let falls: bool = match following {
            Some(n) => n == if_false,
            None => false,
        };
        if !falls {
            let f: Label = self.block_label(if_false);
            self.b(f);
        }
    }

    #[verifier::spinoff_prover]
    pub(crate) fn emit_bool_not(&mut self, dst: VReg, src: VReg, fail: BlockId)
        requires
            old(self).ok(),
            old(self).p.has(dst),
            old(self).p.has(src),
            old(self).p.block(fail),
        ensures
            *final(final(self).out) == *final(old(self).out),
            next(*old(self), *final(self), old(self).st().bool_not(*old(self).p, dst, src, fail)),
    {
        proof {
            lemma_mnemonics();
        }
        let rv: Reg = self.resolve(src, 16);
        let cold: Label = self.block_label(fail);
        let t: LiteralId = self.lit(self.p.true_lit);
        let f: LiteralId = self.lit(self.p.false_lit);
        self.ldl(xr(17), t);
        self.i2("cmp", Operand::Reg(rv), x(17));
        let not_true: Label = self.lab();
        let done: Label = self.lab();
        self.bc(Cond::Ne, not_true);
        let dr: Reg = self.dest_target(dst);
        self.ldl(dr, f);
        self.b(done);
        self.bind(not_true);
        self.ldl(xr(17), f);
        self.i2("cmp", Operand::Reg(rv), x(17));
        self.bc(Cond::Ne, cold);
        self.ldl(dr, t);
        self.bind(done);
        self.commit(dst, dr);
    }

    #[verifier::spinoff_prover]
    pub(crate) fn emit_bool_br(&mut self, val: VReg, if_true: BlockId, if_false: BlockId, not_bool: BlockId)
        requires
            old(self).ok(),
            old(self).p.has(val),
            old(self).p.block(if_true),
            old(self).p.block(if_false),
            old(self).p.block(not_bool),
        ensures
            *final(final(self).out) == *final(old(self).out),
            next(*old(self), *final(self), old(self).st().bool_br(*old(self).p, val, if_true, if_false, not_bool)),
    {
        proof {
            lemma_mnemonics();
        }
        let rv: Reg = self.resolve(val, 16);
        let t: LiteralId = self.lit(self.p.true_lit);
        let f: LiteralId = self.lit(self.p.false_lit);
        self.ldl(xr(17), t);
        self.i2("cmp", Operand::Reg(rv), x(17));
        let tl: Label = self.block_label(if_true);
        self.bc(Cond::Eq, tl);
        self.ldl(xr(17), f);
        self.i2("cmp", Operand::Reg(rv), x(17));
        let fl: Label = self.block_label(if_false);
        self.bc(Cond::Eq, fl);
        let nl: Label = self.block_label(not_bool);
        self.b(nl);
    }

    #[verifier::spinoff_prover]
    pub(crate) fn emit_poll(&mut self)
        requires
            old(self).ok(),
        ensures
            *final(final(self).out) == *final(old(self).out),
            next(*old(self), *final(self), old(self).st().poll(*old(self).p)),
    {
        proof {
            lemma_mnemonics();
        }
        let skip: Label = self.lab();
        self.i2("ldr", w(16), mem(28, VMREG_POLL_FLAG_OFFSET));
        self.cbz(xr(16), skip);
        self.emit_s2_spill_stores();
        self.far(self.p.stubs.poll);
        self.safepoint();
        self.emit_resident_reloads();
        self.bind(skip);
    }

    #[verifier::spinoff_prover]
    pub(crate) fn emit_uncommon_trap(&mut self)
        requires
            old(self).ok(),
        ensures
            *final(final(self).out) == *final(old(self).out),
            next(*old(self), *final(self), old(self).st().uncommon_trap(*old(self).p)),
    {
        self.emit_s2_spill_stores();
        self.safepoint();
        self.raw(brk(TRAP_UNCOMMON));
    }

    #[verifier::spinoff_prover]
    pub(crate) fn emit_nlr_check(&mut self)
        requires
            old(self).ok(),
        ensures
            *final(final(self).out) == *final(old(self).out),
            next(*old(self), *final(self), old(self).st().nlr_check(*old(self).p)),
    {
        proof {
            lemma_mnemonics();
            lemma_epilogue_global(*self.p);
        }
        self.i3("sub", x(17), x(0), imm(NLR_SENTINEL));
        let epi: Label = self.p.epilogue;
        self.cbz(xr(17), epi);
    }

    #[verifier::spinoff_prover]
    pub(crate) fn emit_after_call(&mut self, dst: VReg)
        requires
            old(self).ok(),
            old(self).p.has(dst),
        ensures
            *final(final(self).out) == *final(old(self).out),
            next(*old(self), *final(self), old(self).st().after_call(*old(self).p, dst)),
    {
        proof {
            lemma_mnemonics();
        }
        self.emit_nlr_check();
        if self.p.resident_across_calls {
            let pos: u32 = self.pos;
            self.emit_resident_reloads_at_excluding(pos, Some(dst));
        }
        let dr: Reg = self.dest_target(dst);
        if dr.num != 0 {
            self.i2("mov", Operand::Reg(dr), x(0));
        }
        self.commit(dst, dr);
    }

    #[verifier::spinoff_prover]
    pub(crate) fn emit_call_runtime(&mut self, dst: VReg, arg: VReg)
        requires
            old(self).ok(),
            old(self).p.has(dst),
            old(self).p.has(arg),
        ensures
            *final(final(self).out) == *final(old(self).out),
            next(*old(self), *final(self), old(self).st().call_runtime(*old(self).p, dst, arg)),
    {
        proof {
            lemma_mnemonics();
        }
        let ra: Reg = self.resolve(arg, 16);
        if ra.num != 0 {
            self.i2("mov", x(0), Operand::Reg(ra));
        }
        self.emit_s2_spill_stores();
        self.far(self.p.stubs.must_be_boolean);
        self.safepoint();
        self.emit_after_call(dst);
    }

    #[verifier::spinoff_prover]
    pub(crate) fn emit_ret(&mut self, v: VReg)
        requires
            old(self).ok(),
            old(self).p.has(v),
        ensures
            *final(final(self).out) == *final(old(self).out),
            next(*old(self), *final(self), old(self).st().ret(*old(self).p, v)),
    {
        proof {
            lemma_mnemonics();
            lemma_epilogue_global(*self.p);
        }
        let rv: Reg = self.resolve(v, 0);
        if rv.num != 0 {
            self.i2("mov", x(0), Operand::Reg(rv));
        }
        let epi: Label = self.p.epilogue;
        self.b(epi);
    }

    #[verifier::spinoff_prover]
    pub(crate) fn emit_nlr_return(&mut self, closure: VReg, value: VReg)
        requires
            old(self).ok(),
            old(self).p.has(closure),
            old(self).p.has(value),
        ensures
            *final(final(self).out) == *final(old(self).out),
            next(*old(self), *final(self), old(self).st().nlr_return(*old(self).p, closure, value)),
    {
        proof {
            lemma_mnemonics();
            lemma_epilogue_global(*self.p);
        }
        let rc: Reg = self.resolve(closure, 16);
        if rc.num != 16 {
            self.i2("mov", x(16), Operand::Reg(rc));
        }
        let rv: Reg = self.resolve(value, 17);
        if rv.num != 17 {
            self.i2("mov", x(17), Operand::Reg(rv));
        }
        self.i2("mov", x(0), x(16));
        self.i2("mov", x(1), x(17));
        self.emit_s2_spill_stores();
        self.far(self.p.stubs.nlr_originate);
        self.safepoint();
        self.i2("movz", x(0), imm(NLR_SENTINEL));
        let epi: Label = self.p.epilogue;
        self.b(epi);
    }

    #[verifier::spinoff_prover]
    pub(crate) fn emit_const_pool(&mut self, dst: VReg, lit: PoolLit)
        requires
            old(self).ok(),
            old(self).p.has(dst),
            old(self).p.lit_ok(lit),
        ensures
            *final(final(self).out) == *final(old(self).out),
            next(*old(self), *final(self), old(self).st().const_pool(*old(self).p, dst, lit)),
    {
        let id: LiteralId = self.lit(lit);
        match self.assignment_of(dst) {
            Assignment::Reg(r) => {
                self.ldl(xr(r), id);
            },
            Assignment::Spill(slot) => {
                let dl: Reg = self.dest_target_direct(dst);
                self.ldl(dl, id);
                self.emit_spill_access("str", Operand::Reg(dl), slot);
                self.refresh_resident(dst, dl);
            },
        }
    }

    #[verifier::spinoff_prover]
    pub(crate) fn emit_move(&mut self, dst: VReg, src: VReg)
        requires
            old(self).ok(),
            old(self).p.has(dst),
            old(self).p.has(src),
        ensures
            *final(final(self).out) == *final(old(self).out),
            next(*old(self), *final(self), old(self).st().move_value(*old(self).p, dst, src)),
    {
        proof {
            lemma_mnemonics();
        }
        if self.p.vreg_is_fp[dst.0 as usize] {
            let ds: u8 = self.resolve_fp(src, 16);
            let dd: u8 = self.dest_target_fp(dst);
            if dd != ds {
                self.i2("fmov", d(dd), d(ds));
            }
            self.commit_fp(dst, dd);
        } else {
            let rs: Reg = self.resolve(src, 16);
            let dr: Reg = self.dest_target_direct(dst);
            if dr.num != rs.num {
                self.i2("mov", Operand::Reg(dr), Operand::Reg(rs));
            }
            self.commit(dst, dr);
        }
    }

    #[verifier::spinoff_prover]
    pub(crate) fn emit_param(&mut self, dst: VReg, index: u8)
        requires
            old(self).ok(),
            old(self).p.has(dst),
            index < 31,
        ensures
            *final(final(self).out) == *final(old(self).out),
            next(*old(self), *final(self), old(self).st().param(*old(self).p, dst, index)),
    {
        proof {
            lemma_mnemonics();
        }
        match self.assignment_of(dst) {
            Assignment::Reg(r) => {
                if r != index {
                    self.i2("mov", x(r), x(index));
                }
            },
            Assignment::Spill(slot) => {
                self.emit_spill_access("str", x(index), slot);
                self.refresh_resident(dst, xr(index));
            },
        }
    }

    #[verifier::spinoff_prover]
    pub(crate) fn emit_smi_noov(&mut self, op: SmiOp, dst: VReg, a: VReg, b: VReg)
        requires
            old(self).ok(),
            old(self).p.has(dst),
            old(self).p.has(a),
            old(self).p.has(b),
        ensures
            *final(final(self).out) == *final(old(self).out),
            next(*old(self), *final(self), old(self).st().smi_noov(*old(self).p, op, dst, a, b)),
    {
        proof {
            lemma_mnemonics();
        }
        let ra: Reg = self.resolve(a, 16);
        let rb: Reg = self.resolve(b, 17);
        let dr: Reg = self.dest_target_direct(dst);
        match op {
            SmiOp::Mul => {
                self.i3("asr", x(16), Operand::Reg(ra), imm(2));
                self.i3("mul", Operand::Reg(dr), x(16), Operand::Reg(rb));
            },
            SmiOp::Add => {
                self.i3("add", Operand::Reg(dr), Operand::Reg(ra), Operand::Reg(rb));
            },
            _ => {
                self.i3("sub", Operand::Reg(dr), Operand::Reg(ra), Operand::Reg(rb));
            },
        }
        self.commit(dst, dr);
    }

    #[verifier::spinoff_prover]
    pub(crate) fn emit_smi_noov_imm(&mut self, op: SmiOp, dst: VReg, a: VReg, v: i64)
        requires
            old(self).ok(),
            old(self).p.has(dst),
            old(self).p.has(a),
            0 <= v <= 1023,
        ensures
            *final(final(self).out) == *final(old(self).out),
            next(*old(self), *final(self), old(self).st().smi_noov_imm(*old(self).p, op, dst, a, v)),
    {
        proof {
            lemma_mnemonics();
        }
        let ra: Reg = self.resolve(a, 16);
        let dr: Reg = self.dest_target_direct(dst);
        match op {
            SmiOp::Add => {
                self.i3("add", Operand::Reg(dr), Operand::Reg(ra), imm(4 * v));
            },
            _ => {
                self.i3("sub", Operand::Reg(dr), Operand::Reg(ra), imm(4 * v));
            },
        }
        self.commit(dst, dr);
    }
}

/// Float arithmetic on registers is the one instruction of its operation, on the operands in their order:
/// on doubles, on two doubles, on four singles, and on four integers, which are not divided.
pub proof fn law_float_instructions(s: St, p: Plan, op: FArithOp, dst: VReg, a: VReg, b: VReg, rd: u8, ra: u8, rb: u8)
    requires
        p.home(dst) == Assignment::Reg(rd),
        p.home(a) == Assignment::Reg(ra),
        p.home(b) == Assignment::Reg(rb),
        p.resident@[dst.0 as int] is None,
        p.resident@[a.0 as int] is None,
        p.resident@[b.0 as int] is None,
    ensures
        s.farith(p, op, dst, a, b) == s.i3(
            match op {
                FArithOp::Add => "fadd"@,
                FArithOp::Sub => "fsub"@,
                FArithOp::Mul => "fmul"@,
                FArithOp::Div => "fdiv"@,
            },
            d(rd),
            d(ra),
            d(rb),
        ),
        vec_name(VecKind::F64x2, op) == float_name(op),
        vec_name(VecKind::F32x4, op) == float_name(op),
        op is Add ==> vec_name(VecKind::I32x4, op) == "add"@,
        op is Sub ==> vec_name(VecKind::I32x4, op) == "sub"@,
        op is Mul ==> vec_name(VecKind::I32x4, op) == "mul"@,
        varr(VecKind::F64x2, rd) == v2d(rd),
        varr(VecKind::F32x4, rd) == v4s(rd),
        varr(VecKind::I32x4, rd) == v4s(rd),
        vec_klass(p, VecKind::F64x2) == p.lit(p.float64x2_klass_lit),
        vec_klass(p, VecKind::F32x4) == p.lit(p.float32x4_klass_lit),
        vec_klass(p, VecKind::I32x4) == p.lit(p.int32x4_klass_lit),
        vec_stub(p, VecKind::F64x2) == p.stubs.box_float64x2,
        vec_stub(p, VecKind::F32x4) == p.stubs.box_float32x4,
        vec_stub(p, VecKind::I32x4) == p.stubs.box_int32x4,
{
}

} // verus!
