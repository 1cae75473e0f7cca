//! From intermediate code to assembler calls.
use vstd::prelude::*;
#[allow(unused_imports)]
use crate::compiler::a64::lemma_mnemonics;
use crate::compiler::analysis::proven_smi_positions;
#[allow(unused_imports)]
use crate::compiler::analysis::{graph_ok, ops_before, proven_result, regs_ok};
use crate::compiler::assembler::{
    imm, mem, mem_post, mem_pre, sp, x, xr, Assembler, CodeBlob, Cond, Label, LiteralId, RelocKind,
};
#[allow(unused_imports)]
use crate::compiler::assembler::{
    blob_of, byte_of, final_word, image_words, insn_label, lemma_pool_index_bound, lemma_site_relocs, site_relocs, spec_imm,
    spec_mem, spec_x, spec_xr, Code, Insn,
};
use crate::compiler::emitter::{spill_offset, Emitter, Plan, Reload, StubLits};
#[allow(unused_imports)]
use crate::compiler::emitter::{
    dest_direct, dest_fp, lemma_epilogue_global, lemma_no_mirrors, next, reached, recorded, spill_off, tagged, St,
};
use crate::compiler::ir::{
    is_safepoint_op, BlockId, CallSiteInfo, Ir, IrBlock, IrMethod, PoolEntry, SmiOp, VReg, VRegInfo,
};
#[allow(unused_imports)]
use crate::compiler::ir::safepoint_op;
#[allow(unused_imports)]
use crate::compiler::lower::{eq_cond, float_cond, int_cond, load_off_ok, store_off_ok};
#[allow(unused_imports)]
use crate::compiler::marshal::logged;
use crate::compiler::regalloc::{Assignment, LiveInterval, RegallocResult, SpillSlot};
use crate::compiler::residency::{r1a_profitable_positions, select_authoritative, Homes, SelectionInput};
#[allow(unused_imports)]
use crate::compiler::residency::{authoritative, block_regs_ok, has_interval, profitable_result, selection_ok};
use crate::oops::{SymbolOop, BAILOUT_SENTINEL, HEADER_WORDS};
use crate::text::text_eq;

verus! {

broadcast use crate::compiler::a64::group_encoding;

/// Where a block starts.
#[derive(Clone, Copy, Debug, PartialEq, Eq, Structural)]
pub struct BlockPc {
    pub pc_off: u32,
    pub bci: usize,
}

/// One send's call site. `site` is the index by which the instruction named it.
#[derive(Clone, Copy, Debug, PartialEq, Eq, Structural)]
pub struct EmittedIcSite {
    pub off: u32,
    pub site: u16,
    pub selector: SymbolOop,
    pub argc: u8,
}

/// A place where the frame may be walked: an offset, the enclosing block's bytecode index and the
/// instruction's position.
#[derive(Clone, Copy, Debug, PartialEq, Eq, Structural)]
pub struct SafepointPc {
    pub pc_off: u32,
    pub bci: usize,
    pub position: u32,
}

/// What the entry for on-stack replacement needs.
pub struct EmitOsr {
    /// The loop header that the entry branches to.
    pub header: BlockId,
    /// Buffer word `i` goes to `copies[i]`.
    pub copies: Vec<SpillSlot>,
    /// The header's first position; residents live there are reloaded.
    pub reload_pos: u32,
}

/// The class guard before the verified entry.
#[derive(Clone, Copy, Debug, PartialEq, Eq, Structural)]
pub struct EntryGuard {
    pub smi_klass_bits: u64,
    pub key_klass_bits: u64,
    /// The address that a mismatch branches to.
    pub resolve_addr: u64,
}

/// Switches of the emitter.
#[derive(Clone, Copy, Debug, PartialEq, Eq, Structural)]
pub struct EmitOptions {
    /// Authoritative residents: 0 off, 1 on, 2 on with poisoned slots.
    pub s2_mode: u8,
    /// Slot mirrors: 0 off, 1 on, 2 on with every hit checked.
    pub r1a_mode: u8,
    /// Residents are kept across calls and reloaded after them.
    pub resident_across_calls: bool,
    /// Adjacent slots are cleared in pairs.
    pub prologue_stp: bool,
}

/// The mode of authoritative residents, from the poison switch and the value of the opt-out
/// switch: poisoned where the first is set, off where the second reads `0` or `off`, else on.
pub open spec fn s2_mode_of(poison: bool, opt: Option<Seq<char>>) -> u8 {
    if poison {
        2
    } else if opt == Some("0"@) || opt == Some("off"@) {
        0
    } else {
        1
    }
}

/// The view of an optional text.
pub open spec fn opt_text(o: Option<&str>) -> Option<Seq<char>> {
    match o {
        Some(t) => Some(t@),
        None => None,
    }
}

/// The mode of authoritative residents.
pub fn s2_mode(poison: bool, opt: Option<&str>) -> (m: u8)
    ensures
        m == s2_mode_of(poison, opt_text(opt)),
{
    if poison {
        return 2;
    }
    match opt {
        Some(t) => if text_eq(t, "0") || text_eq(t, "off") {
            0
        } else {
            1
        },
        None => 1,
    }
}

/// The mode of slot mirrors, from the value of its switch: off on `0` or `off`, checked on `2`,
/// else on.
pub open spec fn r1a_mode_of(opt: Option<Seq<char>>) -> u8 {
    if opt == Some("0"@) || opt == Some("off"@) {
        0
    } else if opt == Some("2"@) {
        2
    } else {
        1
    }
}

/// The mode of slot mirrors.
pub fn r1a_mode(opt: Option<&str>) -> (m: u8)
    ensures
        m == r1a_mode_of(opt_text(opt)),
{
    match opt {
        Some(t) => if text_eq(t, "0") || text_eq(t, "off") {
            0
        } else if text_eq(t, "2") {
            2
        } else {
            1
        },
        None => 1,
    }
}

/// What is known of a method besides its code and its registers.
pub struct EmitEnv {
    /// Per register: every definition yields a small integer.
    pub known_smi: Vec<bool>,
    /// Per register: the one small integer it always holds.
    pub const_smi: Vec<Option<i64>>,
    /// Per register: the one pool constant it always holds.
    pub const_pool: Vec<Option<u32>>,
    /// The leaf door's routine and the primitive, where the primitive may take it.
    pub leaf_prim: Option<(u64, u64)>,
    pub options: EmitOptions,
}

/// The addresses that compiled code calls.
#[derive(Clone, Copy, Debug, PartialEq, Eq, Structural)]
pub struct StubAddrs {
    pub poll: u64,
    pub must_be_boolean: u64,
    pub alloc_slow: u64,
    pub box_double: u64,
    pub box_float64x2: u64,
    pub box_float32x4: u64,
    pub box_int32x4: u64,
    pub call_primitive: u64,
    pub nlr_originate: u64,
}

// ── One instruction ─────────────────────────────────────────────────────

/// What an instruction must be for its lowering: its registers have homes, its targets are
/// emitted, its constants and sites exist, and its numbers fit the machine's fields.
pub open spec fn op_valid(
    op: Ir,
    has: spec_fn(VReg) -> bool,
    block: spec_fn(BlockId) -> bool,
    lits: nat,
    sites: nat,
) -> bool {
    match op {
        Ir::FUnbox { dst, src, fail } => has(dst) && has(src) && block(fail),
        Ir::FBox { dst, src } => has(dst) && has(src),
        Ir::FArith { dst, a, b, .. } => has(dst) && has(a) && has(b),
        Ir::VecArith { kind, op, dst, a, b, fail } => has(dst) && has(a) && has(b) && block(fail) && !(kind is I32x4
            && op is Div),
        Ir::FCmpVal { dst, a, b, .. } => has(dst) && has(a) && has(b),
        Ir::FCmpBr { a, b, if_true, if_false, .. } => has(a) && has(b) && block(if_true) && block(if_false),
        Ir::FConst { dst, .. } => has(dst),
        Ir::ConstSmi { dst, .. } => has(dst),
        Ir::ConstPool { dst, lit } => has(dst) && lit.0 < lits,
        Ir::Move { dst, src } => has(dst) && has(src),
        Ir::Param { dst, index } => has(dst) && index < 31,
        Ir::GuardKlass { obj, expect, fail, .. } => has(obj) && expect.0 < lits && block(fail),
        Ir::GuardKlassIn { obj, expects, fail } => has(obj) && block(fail) && forall|i: int|
            0 <= i < expects@.len() ==> (#[trigger] expects@[i]).0 < lits,
        Ir::LoadField { dst, obj, byte_off } => has(dst) && has(obj) && load_off_ok(byte_off),
        Ir::StoreField { obj, byte_off, val, barrier } => has(obj) && has(val) && store_off_ok(byte_off, barrier),
        Ir::SmiArith { dst, a, b, fail, .. } => has(dst) && has(a) && has(b) && block(fail),
        Ir::SmiArithNoOv { op, dst, a, b } => has(dst) && has(a) && has(b) && (op is Add || op is Sub || op is Mul),
        Ir::SmiArithNoOvImm { op, dst, a, imm } => has(dst) && has(a) && 0 <= imm <= 1023 && (op is Add || op is Sub),
        Ir::ArrayAt { dst, arr, idx, klass, fail } => has(dst) && has(arr) && has(idx) && klass.0 < lits && block(fail),
        Ir::ArrayAtPut { dst, arr, idx, val, klass, fail } => has(dst) && has(arr) && has(idx) && has(val) && klass.0
            < lits && block(fail),
        Ir::ArrayAtNC { dst, arr, idx } => has(dst) && has(arr) && has(idx),
        Ir::ArrayAtPutNC { dst, arr, idx, val } => has(dst) && has(arr) && has(idx) && has(val),
        Ir::ByteAt { dst, obj, idx, klass, len_off, tail_off, fail } => has(dst) && has(obj) && has(idx) && klass.0
            < lits && block(fail) && -255 <= len_off <= 256 && -254 <= tail_off <= 257,
        Ir::ByteAtPut { dst, obj, idx, val, klass, len_off, tail_off, fail } => has(dst) && has(obj) && has(idx)
            && has(val) && klass.0 < lits && block(fail) && -255 <= len_off <= 256 && -254 <= tail_off <= 257,
        Ir::SmiShift { dst, a, count, fail } => has(dst) && has(a) && has(count) && block(fail),
        Ir::SmiCmpBr { a, b, if_true, if_false, fail, .. } => has(a) && has(b) && block(if_true) && block(if_false)
            && block(fail),
        Ir::SmiCmpVal { dst, a, b, fail, .. } => has(dst) && has(a) && has(b) && block(fail),
        Ir::RefCmpVal { dst, a, b, .. } => has(dst) && has(a) && has(b),
        Ir::RefCmpBr { a, b, if_true, if_false, .. } => has(a) && has(b) && block(if_true) && block(if_false),
        Ir::BoolNot { dst, src, fail } => has(dst) && has(src) && block(fail),
        Ir::Jump { target } => block(target),
        Ir::BoolBr { val, if_true, if_false, not_bool } => has(val) && block(if_true) && block(if_false) && block(
            not_bool,
        ),
        Ir::CallSend { dst, site, args } => has(dst) && site < sites && args@.len() <= 16 && forall|i: int|
            0 <= i < args@.len() ==> has(#[trigger] args@[i]),
        Ir::CallRuntime { dst, stub, args } => (dst matches Some(v) && has(v)) && stub is MustBeBoolean && args@.len()
            == 1 && has(args@[0]),
        Ir::Alloc { dst, klass, size_words } => has(dst) && klass.0 < lits && HEADER_WORDS <= size_words < 512,
        Ir::Poll => true,
        Ir::UncommonTrap => true,
        Ir::Ret { val } => has(val),
        Ir::RetSelf => has(VReg(0)),
        Ir::NlrReturn { closure, value } => has(closure) && has(value),
        Ir::Bailout { .. } => true,
    }
}

/// A send adds its record; no other instruction adds any.
pub open spec fn op_logged(
    before: Seq<EmittedIcSite>,
    after: Seq<EmittedIcSite>,
    sites: Seq<CallSiteInfo>,
    op: Ir,
) -> bool {
    match op {
        Ir::CallSend { site, .. } => logged(before, after, sites, site),
        _ => after == before,
    }
}

/// The sites of the sends among instructions, in order.
pub open spec fn sends_in(code: Seq<Ir>, k: int) -> Seq<u16>
    decreases k,
{
    if k <= 0 {
        Seq::empty()
    } else {
        match code[k - 1] {
            Ir::CallSend { site, .. } => sends_in(code, k - 1).push(site),
            _ => sends_in(code, k - 1),
        }
    }
}

/// The sites of the sends of the first `k` blocks of the order.
pub open spec fn sends_before(blocks: Seq<IrBlock>, order: Seq<BlockId>, k: int) -> Seq<u16>
    decreases k,
{
    if k <= 0 {
        Seq::empty()
    } else {
        let code = blocks[order[k - 1].0 as int].code@;
        sends_before(blocks, order, k - 1) + sends_in(code, code.len() as int)
    }
}

/// One record per send, in order, with the site's selector and argument count.
pub open spec fn sends_logged(log: Seq<EmittedIcSite>, sites: Seq<CallSiteInfo>, sends: Seq<u16>) -> bool {
    &&& log.len() == sends.len()
    &&& forall|i: int|
        0 <= i < log.len() ==> (#[trigger] log[i]).site == sends[i] && log[i].selector == sites[sends[i] as int].selector
            && log[i].argc == sites[sends[i] as int].argc
}

/// The records of sends ascend, and each stands at a call that is still to be patched.
pub open spec fn at_calls(log: Seq<EmittedIcSite>, code: Seq<u8>) -> bool {
    &&& forall|i: int, k: int| 0 <= i < k < log.len() ==> (#[trigger] log[i]).off < (#[trigger] log[k]).off
    &&& forall|i: int|
        0 <= i < log.len() ==> {
            let off = (#[trigger] log[i]).off as int;
            &&& off % 4 == 0
            &&& off + 4 <= code.len()
            &&& code.subrange(off, off + 4) == seq![0u8, 0u8, 0u8, 0x94u8]
        }
}

/// The records of sends are those of the call sites: the last ones of the code, in order.
proof fn lemma_at_calls(log: Seq<EmittedIcSite>, c: Code, base: int, b: CodeBlob)
    requires
        recorded(log, c.sites(), base),
        blob_of(c, b),
        4 * c.insns.len() <= u32::MAX,
    ensures
        at_calls(log, b.code@),
{
    reveal(Code::sites);
    lemma_site_relocs(c.insns);
    let sites = site_relocs(c.insns);
    assert forall|i: int, k: int| 0 <= i < k < log.len() implies (#[trigger] log[i]).off < (#[trigger] log[k]).off by {
        assert(sites[base + i].offset < sites[base + k].offset);
    }
    assert forall|i: int| 0 <= i < log.len() implies {
        let off = (#[trigger] log[i]).off as int;
        &&& off % 4 == 0
        &&& off + 4 <= b.code@.len()
        &&& b.code@.subrange(off, off + 4) == seq![0u8, 0u8, 0u8, 0x94u8]
    } by {
        let off = log[i].off as int;
        let at = off / 4;
        assert(sites[base + i].offset == off);
        assert(c.insns[at] is Bl);
        assert(image_words(c)[at] == final_word(c, at));
        assert(final_word(c, at) == 0x9400_0000);
        assert(0x9400_0000u32 & 0xFF == 0 && (0x9400_0000u32 >> 8) & 0xFF == 0 && (0x9400_0000u32 >> 16) & 0xFF == 0
            && (0x9400_0000u32 >> 24) & 0xFF == 0x94) by (bit_vector);
        assert forall|j: int| 0 <= j < 4 implies #[trigger] b.code@[off + j] == byte_of(0x9400_0000u32, j) by {
            assert((off + j) / 4 == at && (off + j) % 4 == j);
        }
        assert(b.code@.subrange(off, off + 4) =~= seq![0u8, 0u8, 0u8, 0x94u8]);
    }
}

proof fn lemma_log_op(
    before: Seq<EmittedIcSite>,
    after: Seq<EmittedIcSite>,
    sites: Seq<CallSiteInfo>,
    op: Ir,
    sends: Seq<u16>,
)
    requires
        sends_logged(before, sites, sends),
        op_logged(before, after, sites, op),
    ensures
        sends_logged(
            after,
            sites,
            match op {
                Ir::CallSend { site, .. } => sends.push(site),
                _ => sends,
            },
        ),
{
    match op {
        Ir::CallSend { site, .. } => {
            assert forall|i: int| 0 <= i < after.len() implies (#[trigger] after[i]).site == sends.push(site)[i]
                && after[i].selector == sites[sends.push(site)[i] as int].selector && after[i].argc
                == sites[sends.push(site)[i] as int].argc by {
                if i < before.len() {
                    assert(after.drop_last()[i] == before[i]);
                    assert(before[i].site == sends[i]);
                }
            }
        },
        _ => {},
    }
}

/// An instruction that the plan can lower.
pub open spec fn op_ok(p: Plan, op: Ir) -> bool {
    op_valid(op, |v: VReg| p.has(v), |b: BlockId| p.block(b), p.literal_ids@.len(), p.call_sites@.len())
}

impl St {
    /// The lowering of one instruction. A jump to the block that follows needs no code.
    #[verifier::opaque]
    pub open spec fn emit_op(self, p: Plan, op: Ir, following: Option<BlockId>) -> St {
        match op {
            Ir::FUnbox { dst, src, fail } => self.funbox(p, dst, src, fail),
            Ir::FBox { dst, src } => self.fbox(p, dst, src),
            Ir::FArith { op, dst, a, b } => self.farith(p, op, dst, a, b),
            Ir::VecArith { kind, op, dst, a, b, fail } => self.vecarith(p, kind, op, dst, a, b, fail),
            Ir::FCmpVal { op, dst, a, b } => self.float_test(p, a, b).select(p, dst, float_cond(op)),
            Ir::FCmpBr { op, a, b, if_true, if_false } => self.float_test(p, a, b).branch_both(
                p,
                float_cond(op),
                if_true,
                if_false,
            ),
            Ir::FConst { dst, bits } => self.fconst(p, dst, bits),
            Ir::ConstSmi { dst, value } => self.const_smi(p, dst, value),
            Ir::ConstPool { dst, lit } => self.const_pool(p, dst, lit),
            Ir::Move { dst, src } => self.move_value(p, dst, src),
            Ir::Param { dst, index } => self.param(p, dst, index),
            Ir::GuardKlass { obj, expect, fail, kind } => self.guard_klass(p, obj, expect, fail, kind),
            Ir::GuardKlassIn { obj, expects, fail } => self.guard_klass_in(p, obj, expects@, fail),
            Ir::LoadField { dst, obj, byte_off } => self.load_field(p, dst, obj, byte_off),
            Ir::StoreField { obj, byte_off, val, barrier } => self.store_field(p, obj, byte_off, val, barrier),
            Ir::SmiArith { op, dst, a, b, fail } => match op {
                SmiOp::Mul => self.smi_mul(p, dst, a, b, fail),
                SmiOp::Div => self.smi_divmod(p, op, dst, a, b, fail),
                SmiOp::Mod => self.smi_divmod(p, op, dst, a, b, fail),
                _ => self.smi_simple(p, op, dst, a, b, fail),
            },
            Ir::SmiArithNoOv { op, dst, a, b } => self.smi_noov(p, op, dst, a, b),
            Ir::SmiArithNoOvImm { op, dst, a, imm } => self.smi_noov_imm(p, op, dst, a, imm),
            Ir::ArrayAt { dst, arr, idx, klass, fail } => self.array_at(p, dst, arr, idx, Some((klass, fail))),
            Ir::ArrayAtPut { dst, arr, idx, val, klass, fail } => self.array_at_put(
                p,
                dst,
                arr,
                idx,
                val,
                Some((klass, fail)),
            ),
            Ir::ArrayAtNC { dst, arr, idx } => self.array_at(p, dst, arr, idx, None),
            Ir::ArrayAtPutNC { dst, arr, idx, val } => self.array_at_put(p, dst, arr, idx, val, None),
            Ir::ByteAt { dst, obj, idx, klass, len_off, tail_off, fail } => self.byte_at(
                p,
                dst,
                obj,
                idx,
                klass,
                len_off,
                tail_off,
                fail,
            ),
            Ir::ByteAtPut { dst, obj, idx, val, klass, len_off, tail_off, fail } => self.byte_at_put(
                p,
                dst,
                obj,
                idx,
                val,
                klass,
                len_off,
                tail_off,
                fail,
            ),
            Ir::SmiShift { dst, a, count, fail } => self.smi_shift(p, dst, a, count, fail),
            Ir::SmiCmpBr { op, a, b, if_true, if_false, fail } => self.smi_test(p, a, b, fail).branch_both(
                p,
                int_cond(op),
                if_true,
                if_false,
            ),
            Ir::SmiCmpVal { op, dst, a, b, fail } => self.smi_test(p, a, b, fail).select(p, dst, int_cond(op)),
            Ir::RefCmpVal { dst, a, b, neq } => self.ref_test(p, a, b).select(p, dst, eq_cond(neq)),
            Ir::RefCmpBr { a, b, neq, if_true, if_false } => self.ref_br(
                p,
                a,
                b,
                neq,
                if_true,
                if_false,
                following,
            ),
            Ir::BoolNot { dst, src, fail } => self.bool_not(p, dst, src, fail),
            Ir::Jump { target } => self.jump(p, target, following),
            Ir::BoolBr { val, if_true, if_false, not_bool } => self.bool_br(p, val, if_true, if_false, not_bool),
            Ir::CallSend { dst, site, args } => self.call_send(p, dst, site, args@),
            Ir::CallRuntime { dst, args, .. } => self.call_runtime(p, dst->0, args@[0]),
            Ir::Alloc { dst, klass, size_words } => self.alloc_object(p, dst, klass, size_words),
            Ir::Poll => self.poll(p),
            Ir::UncommonTrap => self.uncommon_trap(p),
            Ir::Ret { val } => self.ret(p, val),
            Ir::RetSelf => self.ret(p, VReg(0)),
            Ir::NlrReturn { closure, value } => self.nlr_return(p, closure, value),
            Ir::Bailout { .. } => self.i2("mov"@, x(0), imm(BAILOUT_SENTINEL)).b(p.epilogue),
        }
    }

    pub open spec fn jump(self, p: Plan, target: BlockId, following: Option<BlockId>) -> St {
        if following != Some(target) {
            self.b(p.labels@[target.0 as int])
        } else {
            self
        }
    }

    /// A raw float from its bits.
    pub open spec fn fconst(self, p: Plan, dst: VReg, bits: u64) -> St {
        let dd = dest_fp(p, dst);
        self.mov64(xr(16), bits).i2("fmov"@, crate::compiler::assembler::spec_d(dd), x(16)).commit_fp(p, dst, dd)
    }

    pub open spec fn const_smi(self, p: Plan, dst: VReg, value: i64) -> St {
        let dr = dest_direct(p, dst);
        self.mov64(dr, tagged(value)).commit(p, dst, dr)
    }

    /// One instruction of a block: mirrors are forgotten before one that may move objects, and
    /// the next position follows.
    pub open spec fn one_op(self, p: Plan, op: Ir, following: Option<BlockId>) -> St {
        let s = if safepoint_op(op) {
            St { in_sp: true, ..self.clear() }
        } else {
            self
        };
        St { pos: (self.pos + 1) as u32, hits: Seq::empty(), in_sp: false, ..s.emit_op(p, op, following) }
    }

    /// The first `k` instructions of a block.
    pub open spec fn ops(self, p: Plan, code: Seq<Ir>, following: Option<BlockId>, k: int) -> St
        decreases k,
    {
        if k <= 0 {
            self
        } else {
            self.ops(p, code, following, k - 1).one_op(p, code[k - 1], following)
        }
    }

    /// A block's start: its label is bound and nothing is mirrored.
    pub open spec fn block_start(self, p: Plan, b: BlockId, bci: usize) -> St {
        St { bci, ..self.bind(p.labels@[b.0 as int]) }.clear()
    }

    /// A whole block.
    pub open spec fn block(self, p: Plan, m: IrMethod, order: Seq<BlockId>, i: int) -> St {
        let b = m.blocks@[order[i].0 as int];
        self.block_start(p, order[i], b.bci).ops(p, b.code@, following(order, i), b.code@.len() as int)
    }

    /// The first `k` blocks of the order.
    pub open spec fn blocks(self, p: Plan, m: IrMethod, order: Seq<BlockId>, k: int) -> St
        decreases k,
    {
        if k <= 0 {
            self
        } else {
            self.blocks(p, m, order, k - 1).block(p, m, order, k - 1)
        }
    }

    /// The class guard. A class of heap objects is never matched by a small integer, which
    /// therefore misses at once; a guard for small integers compares their class like any other.
    pub open spec fn entry_guard(self, g: EntryGuard, key: LiteralId, resolve: LiteralId, smi: LiteralId) -> St {
        if g.key_klass_bits != g.smi_klass_bits {
            let miss = self.code.next_label();
            let s1 = self.lab();
            let matched = s1.code.next_label();
            s1.lab().i2("tst"@, x(0), imm(3)).bc(Cond::Eq, miss).i2("ldur"@, x(17), mem(0, 7)).ldl(xr(16), key).i2(
                "cmp"@,
                x(17),
                x(16),
            ).bc(Cond::Eq, matched).bind(miss).ldl(xr(16), resolve).i1("br"@, x(16)).bind(matched)
        } else {
            let smi_case = self.code.next_label();
            let s1 = self.lab();
            let after = s1.code.next_label();
            let s2 = s1.lab();
            let matched = s2.code.next_label();
            s2.lab().i2("tst"@, x(0), imm(3)).bc(Cond::Eq, smi_case).i2("ldur"@, x(17), mem(0, 7)).b(after).bind(
                smi_case,
            ).ldl(xr(17), smi).bind(after).ldl(xr(16), key).i2("cmp"@, x(17), x(16)).bc(Cond::Eq, matched).ldl(
                xr(16),
                resolve,
            ).i1("br"@, x(16)).bind(matched)
        }
    }

    /// Pushes a frame of `bytes`.
    pub open spec fn push_frame(self, bytes: i64) -> St {
        let s = self.i3("stp"@, x(29), x(30), mem_pre(31, (-16) as i64)).i2("mov"@, x(29), sp());
        if bytes > 0 {
            s.i3("sub"@, sp(), sp(), imm(bytes))
        } else {
            s
        }
    }

    /// Stores `x16` to slots from the `k`-th on, two adjacent ones at once where that is in reach.
    pub open spec fn clear_slots(self, slots: Seq<SpillSlot>, pair: bool, k: int) -> St
        decreases slots.len() - k,
    {
        if k < 0 || k >= slots.len() {
            self
        } else if pair && k + 1 < slots.len() && slots[k + 1].0 == slots[k].0 + 1 && spill_off(slots[k + 1]) >= -512 {
            self.i3("stp"@, x(16), x(16), mem(29, spill_off(slots[k + 1]))).clear_slots(slots, pair, k + 2)
        } else {
            self.spill_access("str"@, x(16), slots[k]).clear_slots(slots, pair, k + 1)
        }
    }

    /// The entry: a frame, cleared slots, and the primitive, as far as the method has them.
    pub open spec fn entry(
        self,
        p: Plan,
        slots: Seq<SpillSlot>,
        pair: bool,
        prim: Option<(i64, u8)>,
        frameless: bool,
    ) -> St {
        let s = if frameless {
            self
        } else {
            self.push_frame(frame_bytes(p.frame_slots))
        };
        let s1 = if !frameless && slots.len() > 0 {
            s.ldl(xr(16), p.lit(p.nil_lit)).clear_slots(slots, pair, 0)
        } else {
            s
        };
        match prim {
            Some((id, argc)) => s1.prim_shim(p, id, argc, p.epilogue),
            None => s1,
        }
    }

    pub open spec fn leave(self, p: Plan, frameless: bool) -> St {
        let s = self.bind(p.epilogue);
        if frameless {
            s.i0("ret"@)
        } else {
            s.i2("mov"@, sp(), x(29)).i3("ldp"@, x(29), x(30), mem_post(31, 16)).i0("ret"@)
        }
    }

    /// Stores `x16` to the first `k` slots.
    pub open spec fn clear_all(self, k: int) -> St
        decreases k,
    {
        if k <= 0 {
            self
        } else {
            self.clear_all(k - 1).spill_access("str"@, x(16), SpillSlot((k - 1) as u16))
        }
    }

    /// Copies the first `k` words of the buffer in `x1` to their slots.
    pub open spec fn copy_in(self, copies: Seq<SpillSlot>, k: int) -> St
        decreases k,
    {
        if k <= 0 {
            self
        } else {
            self.copy_in(copies, k - 1).i2("ldr"@, x(16), mem(1, (8 * (k - 1)) as i64)).spill_access(
                "str"@,
                x(16),
                copies[k - 1],
            )
        }
    }

    /// The entry for on-stack replacement: a frame with every slot cleared, the buffer copied in,
    /// the residents loaded, and on to the loop header.
    pub open spec fn osr_entry(self, p: Plan, osr: EmitOsr) -> St {
        self.clear().push_frame(frame_bytes(p.frame_slots)).ldl(xr(16), p.lit(p.nil_lit)).clear_all(
            p.frame_slots as int,
        ).copy_in(osr.copies@, osr.copies@.len() as int).reloads_at(p, osr.reload_pos, None).b(
            p.labels@[osr.header.0 as int],
        )
    }
}

/// The size of a frame: its slots, rounded up to sixteen bytes.
pub open spec fn frame_bytes(slots: u16) -> i64 {
    (16 * ((8 * slots + 15) / 16)) as i64
}

/// The block that follows in the order.
pub open spec fn following(order: Seq<BlockId>, i: int) -> Option<BlockId> {
    if i + 1 < order.len() {
        Some(order[i + 1])
    } else {
        None
    }
}

impl<'a, A: Assembler> Emitter<'a, A> {
    fn emit_fconst(&mut self, dst: VReg, bits: u64)
        requires
            old(self).ok(),
            old(self).p.has(dst),
        ensures
            *final(final(self).out) == *final(old(self).out),
            next(*old(self), *final(self), old(self).st().fconst(*old(self).p, dst, bits)),
    {
        proof {
            lemma_mnemonics();
        }
        self.emit_mov_imm64(xr(16), bits);
        let dd: u8 = self.dest_target_fp(dst);
        self.i2("fmov", crate::compiler::assembler::d(dd), x(16));
        self.commit_fp(dst, dd);
    }

    fn emit_const_smi(&mut self, dst: VReg, value: i64)
        requires
            old(self).ok(),
            old(self).p.has(dst),
        ensures
            *final(final(self).out) == *final(old(self).out),
            next(*old(self), *final(self), old(self).st().const_smi(*old(self).p, dst, value)),
    {
        let dr = self.dest_target_direct(dst);
        self.emit_mov_imm64(dr, (value << 2) as u64);
        self.commit(dst, dr);
    }

    fn emit_jump(&mut self, target: BlockId, following: Option<BlockId>)
        requires
            old(self).ok(),
            old(self).p.block(target),
        ensures
            *final(final(self).out) == *final(old(self).out),
            next(*old(self), *final(self), old(self).st().jump(*old(self).p, target, following)),
    {
        let falls: bool = match following {
            Some(n) => n == target,
            None => false,
        };
        if !falls {
            let l: Label = self.block_label(target);
            self.b(l);
        }
    }

    fn emit_bailout(&mut self)
        requires
            old(self).ok(),
        ensures
            *final(final(self).out) == *final(old(self).out),
            next(
                *old(self),
                *final(self),
                old(self).st().i2("mov"@, spec_x(0), spec_imm(BAILOUT_SENTINEL)).b(old(self).p.epilogue),
            ),
    {
        proof {
            lemma_mnemonics();
            lemma_epilogue_global(*self.p);
        }
        self.i2("mov", x(0), imm(BAILOUT_SENTINEL));
        let epi: Label = self.p.epilogue;
        self.b(epi);
    }

    /// Lowers one instruction.
    #[verifier::spinoff_prover]
    #[verifier::rlimit(60)]
    fn emit_ir(&mut self, op: &Ir, following: Option<BlockId>)
        requires
            old(self).ok(),
            op_ok(*old(self).p, *op),
        ensures
            *final(final(self).out) == *final(old(self).out),
            reached(*old(self), *final(self), old(self).st().emit_op(*old(self).p, *op, following)),
            op_logged(old(self).ic_sites@, final(self).ic_sites@, old(self).p.call_sites@, *op),
    {
        reveal(St::emit_op);
        match op {
            Ir::FUnbox { dst, src, fail } => self.emit_funbox(*dst, *src, *fail),
            Ir::FBox { dst, src } => self.emit_fbox(*dst, *src),
            Ir::FArith { op, dst, a, b } => self.emit_farith(*op, *dst, *a, *b),
            Ir::VecArith { kind, op, dst, a, b, fail } => self.emit_vecarith(*kind, *op, *dst, *a, *b, *fail),
            Ir::FCmpVal { op, dst, a, b } => self.emit_fcmp_val(*op, *dst, *a, *b),
            Ir::FCmpBr { op, a, b, if_true, if_false } => self.emit_fcmp_br(*op, *a, *b, *if_true, *if_false),
            Ir::FConst { dst, bits } => self.emit_fconst(*dst, *bits),
            Ir::ConstSmi { dst, value } => self.emit_const_smi(*dst, *value),
            Ir::ConstPool { dst, lit } => self.emit_const_pool(*dst, *lit),
            Ir::Move { dst, src } => self.emit_move(*dst, *src),
            Ir::Param { dst, index } => self.emit_param(*dst, *index),
            Ir::GuardKlass { obj, expect, fail, kind } => self.emit_guard_klass(*obj, *expect, *fail, *kind),
            Ir::GuardKlassIn { obj, expects, fail } => self.emit_guard_klass_in(*obj, expects, *fail),
            Ir::LoadField { dst, obj, byte_off } => self.emit_load_field(*dst, *obj, *byte_off),
            Ir::StoreField { obj, byte_off, val, barrier } => self.emit_store_field(*obj, *byte_off, *val, *barrier),
            Ir::SmiArith { op, dst, a, b, fail } => match op {
                SmiOp::Mul => self.emit_smi_mul(*dst, *a, *b, *fail),
                SmiOp::Div => self.emit_smi_divmod(*op, *dst, *a, *b, *fail),
                SmiOp::Mod => self.emit_smi_divmod(*op, *dst, *a, *b, *fail),
                _ => self.emit_smi_arith_simple(*op, *dst, *a, *b, *fail),
            },
            Ir::SmiArithNoOv { op, dst, a, b } => self.emit_smi_noov(*op, *dst, *a, *b),
            Ir::SmiArithNoOvImm { op, dst, a, imm } => self.emit_smi_noov_imm(*op, *dst, *a, *imm),
            Ir::ArrayAt { dst, arr, idx, klass, fail } => self.emit_array_at(
                *dst,
                *arr,
                *idx,
                Some((*klass, *fail)),
            ),
            Ir::ArrayAtPut { dst, arr, idx, val, klass, fail } => self.emit_array_at_put(
                *dst,
                *arr,
                *idx,
                *val,
                Some((*klass, *fail)),
            ),
            Ir::ArrayAtNC { dst, arr, idx } => self.emit_array_at(*dst, *arr, *idx, None),
            Ir::ArrayAtPutNC { dst, arr, idx, val } => self.emit_array_at_put(*dst, *arr, *idx, *val, None),
            Ir::ByteAt { dst, obj, idx, klass, len_off, tail_off, fail } => self.emit_byte_at(
                *dst,
                *obj,
                *idx,
                *klass,
                *len_off,
                *tail_off,
                *fail,
            ),
            Ir::ByteAtPut { dst, obj, idx, val, klass, len_off, tail_off, fail } => self.emit_byte_at_put(
                *dst,
                *obj,
                *idx,
                *val,
                *klass,
                *len_off,
                *tail_off,
                *fail,
            ),
            Ir::SmiShift { dst, a, count, fail } => self.emit_smi_shift(*dst, *a, *count, *fail),
            Ir::SmiCmpBr { op, a, b, if_true, if_false, fail } => self.emit_smi_cmp_br(
                *op,
                *a,
                *b,
                *if_true,
                *if_false,
                *fail,
            ),
            Ir::SmiCmpVal { op, dst, a, b, fail } => self.emit_smi_cmp_val(*op, *dst, *a, *b, *fail),
            Ir::RefCmpVal { dst, a, b, neq } => self.emit_ref_cmp_val(*dst, *a, *b, *neq),
            Ir::RefCmpBr { a, b, neq, if_true, if_false } => self.emit_ref_br(
                *a,
                *b,
                *neq,
                *if_true,
                *if_false,
                following,
            ),
            Ir::BoolNot { dst, src, fail } => self.emit_bool_not(*dst, *src, *fail),
            Ir::Jump { target } => self.emit_jump(*target, following),
            Ir::BoolBr { val, if_true, if_false, not_bool } => self.emit_bool_br(
                *val,
                *if_true,
                *if_false,
                *not_bool,
            ),
            Ir::CallSend { dst, site, args } => self.emit_call_send(*dst, *site, args),
            Ir::CallRuntime { dst, stub, args } => match dst {
                Some(v) => self.emit_call_runtime(*v, args[0]),
                None => {},
            },
            Ir::Alloc { dst, klass, size_words } => self.emit_alloc(*dst, *klass, *size_words),
            Ir::Poll => self.emit_poll(),
            Ir::UncommonTrap => self.emit_uncommon_trap(),
            Ir::Ret { val } => self.emit_ret(*val),
            Ir::RetSelf => self.emit_ret(VReg(0)),
            Ir::NlrReturn { closure, value } => self.emit_nlr_return(*closure, *value),
            Ir::Bailout { reason } => self.emit_bailout(),
        }
    }
}

// ── What an emission is given ───────────────────────────────────────────

/// A method with its registers, the addresses it may call, and what its entry has.
pub struct Job<'a> {
    pub method: &'a IrMethod,
    pub regalloc: &'a RegallocResult,
    pub stubs: StubAddrs,
    pub prim_shim: Option<(i64, u8)>,
    pub guard: Option<EntryGuard>,
    pub osr: Option<&'a EmitOsr>,
    pub frameless: bool,
    pub env: &'a EmitEnv,
}

/// A runtime address as a pool constant.
pub open spec fn address(a: u64) -> (u64, Option<RelocKind>) {
    (a, Some(RelocKind::RuntimeAddr))
}

/// The method's own constants.
pub open spec fn method_constants(j: Job) -> Seq<(u64, Option<RelocKind>)> {
    Seq::new(j.method.pool@.len(), |i: int| (j.method.pool@[i].value, j.method.pool@[i].kind))
}

pub open spec fn stub_constants(a: StubAddrs) -> Seq<(u64, Option<RelocKind>)> {
    seq![
        address(a.poll),
        address(a.must_be_boolean),
        address(a.alloc_slow),
        address(a.box_double),
        address(a.box_float64x2),
        address(a.box_float32x4),
        address(a.box_int32x4),
        address(a.call_primitive),
        address(a.nlr_originate),
    ]
}

/// The leaf door, where the method has a primitive that may take it.
pub open spec fn leaf_of(j: Job) -> Option<(u64, u64)> {
    if j.prim_shim is Some {
        j.env.leaf_prim
    } else {
        None
    }
}

pub open spec fn leaf_constants(j: Job) -> Seq<(u64, Option<RelocKind>)> {
    match leaf_of(j) {
        Some((rt, f)) => seq![address(rt), address(f)],
        None => Seq::empty(),
    }
}

/// The guarded class, the miss address and, where small integers are guarded, their class.
pub open spec fn guard_constants(j: Job) -> Seq<(u64, Option<RelocKind>)> {
    match j.guard {
        Some(g) => if g.key_klass_bits != g.smi_klass_bits {
            seq![(g.key_klass_bits, Some(RelocKind::KeyKlassOop)), address(g.resolve_addr)]
        } else {
            seq![
                (g.key_klass_bits, Some(RelocKind::KeyKlassOop)),
                address(g.resolve_addr),
                (g.smi_klass_bits, Some(RelocKind::Oop)),
            ]
        },
        None => Seq::empty(),
    }
}

/// Every constant, in the order in which the pool gets them.
pub open spec fn constants(j: Job) -> Seq<(u64, Option<RelocKind>)> {
    method_constants(j) + stub_constants(j.stubs) + leaf_constants(j) + guard_constants(j)
}

/// The code after the first `k` constants were interned.
pub open spec fn interned(c: Code, consts: Seq<(u64, Option<RelocKind>)>, k: int) -> Code
    decreases k,
{
    if k <= 0 {
        c
    } else {
        interned(c, consts, k - 1).with_literal(consts[k - 1].0, consts[k - 1].1)
    }
}

/// The handle that the `k`-th constant gets.
pub open spec fn interned_id(c: Code, consts: Seq<(u64, Option<RelocKind>)>, k: int) -> LiteralId {
    interned(c, consts, k).literal_id(consts[k].0, consts[k].1)
}

/// The handles of all constants.
pub open spec fn job_ids(c: Code, j: Job) -> Seq<LiteralId> {
    Seq::new(constants(j).len(), |k: int| interned_id(c, constants(j), k))
}

/// How many of the first `b` blocks are part of an order.
pub open spec fn ordered_before(order: Seq<BlockId>, b: int) -> nat
    decreases b,
{
    if b <= 0 {
        0
    } else if order.contains(BlockId((b - 1) as u32)) {
        ordered_before(order, b - 1) + 1
    } else {
        ordered_before(order, b - 1)
    }
}

/// The label of a block of the order. A block outside it has none; the first label holds its place.
pub open spec fn block_label(c: Code, order: Seq<BlockId>, b: int) -> Label {
    if order.contains(BlockId(b as u32)) {
        Label((c.labels.len() + ordered_before(order, b)) as u32)
    } else {
        Label(0)
    }
}

/// The code with the pool filled and a label made for each block of the order and for the epilogue.
pub open spec fn prepared(c: Code, j: Job) -> Code {
    let filled = interned(c, constants(j), constants(j).len() as int);
    let n = ordered_before(j.regalloc.block_order@, j.method.blocks@.len() as int);
    Code { labels: filled.labels + Seq::new(n + 1, |i: int| None), ..filled }
}

/// What the choice of authoritative residents reads.
pub open spec fn selection<'a>(j: Job<'a>) -> SelectionInput<'a> {
    SelectionInput {
        blocks: &j.method.blocks,
        intervals: &j.regalloc.intervals,
        block_order: &j.regalloc.block_order,
        block_start_pos: &j.regalloc.block_start_pos,
        safepoint_positions: &j.regalloc.safepoint_positions,
        extra_oop_live: &j.regalloc.extra_oop_live,
        known_smi: &j.env.known_smi,
        const_smi: &j.env.const_smi,
        const_pool: &j.env.const_pool,
    }
}

/// A register that some interval gives a home.
pub open spec fn has_home(ivs: Seq<LiveInterval>, v: VReg) -> bool {
    exists|i: int| 0 <= i < ivs.len() && (#[trigger] ivs[i]).vreg == v && ivs[i].assignment is Some
}

/// An interval names registers of the machine and slots of the frame.
pub open spec fn interval_ok(iv: LiveInterval, slots: u16) -> bool {
    &&& iv.resident_reg matches Some(r) ==> r < 31
    &&& match iv.assignment {
        Some(Assignment::Reg(r)) => r < 31,
        Some(Assignment::Spill(s)) => s.0 < slots,
        None => true,
    }
}

/// The named constants are constants of the method.
pub open spec fn lits_ok(m: IrMethod) -> bool {
    &&& m.true_lit.0 < m.pool@.len()
    &&& m.false_lit.0 < m.pool@.len()
    &&& m.nil_lit.0 < m.pool@.len()
    &&& m.mark_slots_lit.0 < m.pool@.len()
    &&& m.mark_double_lit.0 < m.pool@.len()
    &&& m.double_klass_lit.0 < m.pool@.len()
    &&& m.float64x2_klass_lit.0 < m.pool@.len()
    &&& m.float32x4_klass_lit.0 < m.pool@.len()
    &&& m.int32x4_klass_lit.0 < m.pool@.len()
}

/// Every instruction of the emitted blocks can be lowered.
pub open spec fn ops_valid(j: Job) -> bool {
    forall|i: int, k: int|
        #![trigger j.method.blocks@[j.regalloc.block_order@[i].0 as int].code@[k]]
        0 <= i < j.regalloc.block_order@.len() && 0 <= k < j.method.blocks@[j.regalloc.block_order@[i].0 as int].code@.len()
            ==> op_valid(
            j.method.blocks@[j.regalloc.block_order@[i].0 as int].code@[k],
            |v: VReg| has_home(j.regalloc.intervals@, v),
            |b: BlockId| j.regalloc.block_order@.contains(b),
            j.method.pool@.len(),
            j.method.call_sites@.len(),
        )
}

/// What emission asks of its input: a graph whose edges lead to emitted blocks, a home for every
/// register that is used, and numbers that fit the machine's fields. A frameless method has no
/// slot, no safepoint, no primitive and no further entry.
pub open spec fn job_ok(j: Job) -> bool {
    let m = *j.method;
    let ra = *j.regalloc;
    let n = m.vregs@.len();
    &&& graph_ok(m.blocks@, ra.block_order@, n, m.pool@.len())
    &&& selection_ok(selection(j))
    &&& m.blocks@.len() <= u32::MAX
    &&& n <= u32::MAX
    &&& j.env.known_smi@.len() == n
    &&& forall|v: int| 0 <= v < n ==> (#[trigger] j.env.const_pool@[v] matches Some(k) ==> k < m.pool@.len())
    &&& forall|i: int| 0 <= i < ra.intervals@.len() ==> interval_ok(#[trigger] ra.intervals@[i], ra.frame_slots)
    &&& lits_ok(m)
    &&& ra.frame_slots <= 511
    &&& ops_valid(j)
    &&& ops_before(m.blocks@, ra.block_order@, ra.block_order@.len() as int) <= u32::MAX
    &&& j.prim_shim matches Some((id, _)) ==> 0 <= id < 65536
    &&& forall|i: int|
        0 <= i < ra.deopt_nil_init_slots@.len() ==> (#[trigger] ra.deopt_nil_init_slots@[i]).0 < ra.frame_slots
    &&& j.osr matches Some(o) ==> osr_ok(j, *o)
    &&& j.frameless ==> ra.frame_slots == 0 && ra.deopt_nil_init_slots@.len() == 0 && j.prim_shim is None && j.osr is None
        && ra.safepoint_positions@.len() == 0
}

pub open spec fn osr_ok(j: Job, o: EmitOsr) -> bool {
    &&& j.regalloc.block_order@.contains(o.header)
    &&& o.copies@.len() <= 4096
    &&& forall|i: int| 0 <= i < o.copies@.len() ==> (#[trigger] o.copies@[i]).0 < j.regalloc.frame_slots
}

/// What emission asks of the assembler: nothing pending, and room for the handles.
pub open spec fn code_ready(j: Job, c: Code) -> bool {
    &&& !c.finished
    &&& c.open_labels() == Set::<u32>::empty()
    &&& c.literals_ok()
    &&& c.labels.len() + j.method.blocks@.len() < u32::MAX
    &&& c.pool.len() + constants(j).len() <= u32::MAX
}

/// A fresh assembler has nothing pending.
pub proof fn law_fresh_assembler_is_ready()
    ensures
        Code::empty().open_labels() == Set::<u32>::empty(),
        Code::empty().literals_ok(),
{
    reveal(Code::open_labels);
    reveal(Code::literals_ok);
    assert(Code::empty().open_labels() =~= Set::<u32>::empty());
}

// ── The plan of an emission ─────────────────────────────────────────────

/// The home that the first `k` intervals give a register.
pub open spec fn assigned(ivs: Seq<LiveInterval>, v: u32, k: int) -> Option<Assignment>
    decreases k,
{
    if k <= 0 {
        None
    } else if ivs[k - 1].vreg.0 == v {
        ivs[k - 1].assignment
    } else {
        assigned(ivs, v, k - 1)
    }
}

/// The resident register that the first `k` intervals give a register.
pub open spec fn resident_of(ivs: Seq<LiveInterval>, v: u32, k: int) -> Option<u8>
    decreases k,
{
    if k <= 0 {
        None
    } else if ivs[k - 1].vreg.0 == v && ivs[k - 1].resident_reg is Some {
        ivs[k - 1].resident_reg
    } else {
        resident_of(ivs, v, k - 1)
    }
}

/// The residents of spilled registers among the first `k` intervals; those alone that `only`
/// marks, where it is given.
pub open spec fn reloads_of(ivs: Seq<LiveInterval>, only: Option<Seq<bool>>, k: int) -> Seq<Reload>
    decreases k,
{
    if k <= 0 {
        Seq::empty()
    } else {
        let prev = reloads_of(ivs, only, k - 1);
        let iv = ivs[k - 1];
        match (iv.resident_reg, iv.assignment) {
            (Some(reg), Some(Assignment::Spill(slot))) => if only matches Some(o) ==> o[iv.vreg.0 as int] {
                prev.push(
                    Reload { vreg: iv.vreg.0, start: iv.start, end: iv.end, reg, slot, is_fp: iv.is_fp },
                )
            } else {
                prev
            },
            _ => prev,
        }
    }
}

/// Whether a register's range has started at a position.
pub open spec fn started(ivs: Seq<LiveInterval>, v: VReg, pos: u32) -> bool {
    exists|i: int| 0 <= i < ivs.len() && (#[trigger] ivs[i]).vreg == v && ivs[i].start <= pos
}

/// The extra facts of authoritative registers at or after their definition.
pub open spec fn extras_of(ivs: Seq<LiveInterval>, s2: Seq<bool>, extra: Seq<(VReg, u32)>, k: int) -> Seq<(u32, u32)>
    decreases k,
{
    if k <= 0 {
        Seq::empty()
    } else {
        let prev = extras_of(ivs, s2, extra, k - 1);
        let (v, pos) = extra[k - 1];
        if s2[v.0 as int] && started(ivs, v, pos) {
            prev.push((v.0, pos))
        } else {
            prev
        }
    }
}

/// Whether a register of the machine mirrors a slot.
pub open spec fn is_resident(ivs: Seq<LiveInterval>, r: u8) -> bool {
    exists|i: int| 0 <= i < ivs.len() && (#[trigger] ivs[i]).resident_reg == Some(r)
}

/// The registers from `x21` on that no interval uses, `k` of them looked at.
pub open spec fn free_regs(ivs: Seq<LiveInterval>, k: int) -> Seq<u8>
    decreases k,
{
    if k <= 0 {
        Seq::empty()
    } else {
        let prev = free_regs(ivs, k - 1);
        if is_resident(ivs, (20 + k) as u8) {
            prev
        } else {
            prev.push((20 + k) as u8)
        }
    }
}

/// Which residents are authoritative.
pub open spec fn selected(j: Job, s2: Seq<bool>) -> bool {
    let t = selection(j);
    &&& s2.len() == t.known_smi@.len()
    &&& forall|i: int|
        0 <= i < t.intervals@.len() ==> s2[(#[trigger] t.intervals@[i]).vreg.0 as int] == (j.env.options.s2_mode != 0
            && authoritative(t, t.intervals@[i]))
    &&& forall|v: u32| v < t.known_smi@.len() && !has_interval(t, VReg(v)) ==> !#[trigger] s2[v as int]
}

/// The registers' homes, as the choice of mirrored slots reads them.
pub open spec fn homes<'a>(p: &'a Plan) -> Homes<'a> {
    Homes { assignment: &p.assignment, resident: &p.resident, const_smi: &p.const_smi, const_pool: &p.const_pool }
}

/// The stubs' handles, which stand from `at` on.
pub open spec fn stub_ids(ids: Seq<LiteralId>, at: int) -> StubLits {
    StubLits {
        poll: ids[at],
        must_be_boolean: ids[at + 1],
        alloc_slow: ids[at + 2],
        box_double: ids[at + 3],
        box_float64x2: ids[at + 4],
        box_float32x4: ids[at + 5],
        box_int32x4: ids[at + 6],
        call_primitive: ids[at + 7],
        nlr_originate: ids[at + 8],
    }
}

/// Where the guard's constants start.
pub open spec fn guard_at(j: Job) -> int {
    j.method.pool@.len() as int + 9 + leaf_constants(j).len()
}

/// The tables of a plan are those of the job.
pub open spec fn tables_of(p: Plan, j: Job) -> bool {
    let m = *j.method;
    let ra = *j.regalloc;
    let ivs = ra.intervals@;
    let n = m.vregs@.len();
    &&& p.assignment@ == Seq::new(n, |v: int| assigned(ivs, v as u32, ivs.len() as int))
    &&& p.resident@ == Seq::new(n, |v: int| resident_of(ivs, v as u32, ivs.len() as int))
    &&& p.reloads@ == reloads_of(ivs, None, ivs.len() as int)
    &&& selected(j, p.s2_smi@)
    &&& p.s2_stores@ == reloads_of(ivs, Some(p.s2_smi@), ivs.len() as int)
    &&& p.s2_extra@ == extras_of(ivs, p.s2_smi@, ra.extra_oop_live@, ra.extra_oop_live@.len() as int)
    &&& p.known_smi@ == j.env.known_smi@
    &&& proven_result(p.proven_smi_at@, m.blocks@, ra.block_order@, m.pool@, n)
    &&& p.const_smi@ == j.env.const_smi@
    &&& p.const_pool@ == j.env.const_pool@
    &&& p.vreg_is_fp@ == Seq::new(n, |v: int| m.vregs@[v].is_fp)
    &&& p.in_order@ == Seq::new(m.blocks@.len(), |b: int| ra.block_order@.contains(BlockId(b as u32)))
    &&& p.call_sites@ == m.call_sites@
    &&& p.frame_slots == ra.frame_slots
    &&& p.r1a_free@ == free_regs(ivs, 7)
    &&& if j.env.options.r1a_mode != 0 {
        profitable_result(p.r1a_profitable@, m.blocks@, ra.block_order@, homes(&p), ra.block_order@.len() as int)
            && p.r1a_profitable@.len() == ops_before(m.blocks@, ra.block_order@, ra.block_order@.len() as int)
    } else {
        p.r1a_profitable@.len() == 0
    }
    &&& p.s2_mode == j.env.options.s2_mode
    &&& p.r1a_mode == j.env.options.r1a_mode
    &&& p.resident_across_calls == j.env.options.resident_across_calls
}

/// The handles of a plan are those that the code hands out.
pub open spec fn handles_of(p: Plan, j: Job, c: Code) -> bool {
    let m = *j.method;
    let ids = job_ids(c, j);
    let n = m.pool@.len() as int;
    &&& p.literal_ids@ == ids.take(n)
    &&& p.labels@ == Seq::new(m.blocks@.len(), |b: int| block_label(c, j.regalloc.block_order@, b))
    &&& p.epilogue == Label((c.labels.len() + ordered_before(j.regalloc.block_order@, m.blocks@.len() as int)) as u32)
    &&& p.stubs == stub_ids(ids, n)
    &&& p.leaf_prim_lits == match leaf_of(j) {
        Some(_) => Some((ids[n + 9], ids[n + 10])),
        None => None,
    }
    &&& p.true_lit == m.true_lit
    &&& p.false_lit == m.false_lit
    &&& p.nil_lit == m.nil_lit
    &&& p.mark_slots_lit == m.mark_slots_lit
    &&& p.mark_double_lit == m.mark_double_lit
    &&& p.double_klass_lit == m.double_klass_lit
    &&& p.float64x2_klass_lit == m.float64x2_klass_lit
    &&& p.float32x4_klass_lit == m.float32x4_klass_lit
    &&& p.int32x4_klass_lit == m.int32x4_klass_lit
}

/// The plan of a job, on an assembler in state `c`.
pub open spec fn plan_of(p: Plan, j: Job, c: Code) -> bool {
    tables_of(p, j) && handles_of(p, j, c)
}

// ── The emission ────────────────────────────────────────────────────────

/// The state before the first instruction.
pub open spec fn begun(p: Plan, c: Code) -> St {
    St {
        code: c,
        pos: 0,
        bci: 0,
        safepoints: Seq::empty(),
        ic_sites: Seq::empty(),
        shadow: Seq::new(p.frame_slots as nat, |i: int| None),
        of_reg: Seq::new(32, |i: int| None),
        hits: Seq::empty(),
        in_sp: false,
    }
}

/// The state at the verified entry: after the guard, if there is one.
pub open spec fn at_entry(p: Plan, j: Job, c: Code) -> St {
    let s = begun(p, prepared(c, j));
    let ids = job_ids(c, j);
    let at = guard_at(j);
    match j.guard {
        Some(g) => s.entry_guard(g, ids[at], ids[at + 1], if g.key_klass_bits != g.smi_klass_bits {
            LiteralId(0)
        } else {
            ids[at + 2]
        }),
        None => s,
    }
}

/// The state before the first block.
pub open spec fn at_body(p: Plan, j: Job, c: Code) -> St {
    at_entry(p, j, c).entry(
        p,
        j.regalloc.deopt_nil_init_slots@,
        j.env.options.prologue_stp,
        j.prim_shim,
        j.frameless,
    )
}

/// The state before the `k`-th block.
pub open spec fn at_block(p: Plan, j: Job, c: Code, k: int) -> St {
    at_body(p, j, c).blocks(p, *j.method, j.regalloc.block_order@, k)
}

/// The state after the epilogue.
pub open spec fn at_tail(p: Plan, j: Job, c: Code) -> St {
    at_block(p, j, c, j.regalloc.block_order@.len() as int).leave(p, j.frameless)
}

/// The state at the end.
pub open spec fn at_end(p: Plan, j: Job, c: Code) -> St {
    match j.osr {
        Some(o) => at_tail(p, j, c).osr_entry(p, *o),
        None => at_tail(p, j, c),
    }
}

/// Where each block of the order starts.
pub open spec fn block_pcs_of(p: Plan, j: Job, c: Code) -> Seq<BlockPc> {
    Seq::new(
        j.regalloc.block_order@.len(),
        |i: int|
            BlockPc {
                pc_off: at_block(p, j, c, i).code.offset(),
                bci: j.method.blocks@[j.regalloc.block_order@[i].0 as int].bci,
            },
    )
}

/// Code only grows from block to block.
pub open spec fn ascending(p: Plan, j: Job, c: Code) -> bool {
    forall|i: int, k: int|
        0 <= i <= k <= j.regalloc.block_order@.len() ==> (#[trigger] at_block(p, j, c, i)).code.insns.len() <= (
        #[trigger] at_block(p, j, c, k)).code.insns.len() <= at_end(p, j, c).code.insns.len()
}

/// The starts of the blocks never descend, and give the blocks' bytecode indices.
pub open spec fn pcs_sorted(pcs: Seq<BlockPc>) -> bool {
    forall|i: int, k: int| 0 <= i <= k < pcs.len() ==> (#[trigger] pcs[i]).pc_off <= (#[trigger] pcs[k]).pc_off
}

/// What [`emit`] returns.
pub type Emitted = (
    CodeBlob,
    Vec<BlockPc>,
    u32,
    Vec<EmittedIcSite>,
    Vec<SafepointPc>,
    Option<u32>,
    Vec<LiteralId>,
);

/// The result is what the plan's emission yields: the finished code, the block starts, the
/// verified entry, the sites and safepoints in the order of emission, the replacement entry, and
/// the handles of the method's constants.
pub open spec fn emitted(p: Plan, j: Job, c: Code, r: Emitted) -> bool {
    let end = at_end(p, j, c);
    &&& blob_of(end.code, r.0)
    &&& r.1@ == block_pcs_of(p, j, c)
    &&& r.2 == at_entry(p, j, c).code.offset()
    &&& r.3@ == end.ic_sites
    &&& r.4@ == end.safepoints
    &&& r.5 == match j.osr {
        Some(_) => Some(at_tail(p, j, c).code.offset()),
        None => None,
    }
    &&& r.6@ == p.literal_ids@
}

// ── Tables ──────────────────────────────────────────────────────────────

/// The constants, in the order in which the pool gets them.
fn constant_list(j: &Job) -> (r: Vec<(u64, Option<RelocKind>)>)
    ensures
        r@ == constants(*j),
{
    let mut r: Vec<(u64, Option<RelocKind>)> = Vec::new();
    let mut i: usize = 0;
    while i < j.method.pool.len()
        invariant
            i <= j.method.pool@.len(),
            r@ == method_constants(*j).take(i as int),
        decreases j.method.pool@.len() - i,
    {
        let e: PoolEntry = j.method.pool[i];
        r.push((e.value, e.kind));
        assert(method_constants(*j).take(i as int + 1) =~= method_constants(*j).take(i as int).push((e.value, e.kind)));
        i += 1;
    }
    assert(method_constants(*j).take(i as int) =~= method_constants(*j));
    let a: StubAddrs = j.stubs;
    let rt: Option<RelocKind> = Some(RelocKind::RuntimeAddr);
    r.push((a.poll, rt));
    r.push((a.must_be_boolean, rt));
    r.push((a.alloc_slow, rt));
    r.push((a.box_double, rt));
    r.push((a.box_float64x2, rt));
    r.push((a.box_float32x4, rt));
    r.push((a.box_int32x4, rt));
    r.push((a.call_primitive, rt));
    r.push((a.nlr_originate, rt));
    assert(r@ =~= method_constants(*j) + stub_constants(a));
    if j.prim_shim.is_some() {
        match j.env.leaf_prim {
            Some((door, f)) => {
                r.push((door, rt));
                r.push((f, rt));
            },
            None => {},
        }
    }
    assert(r@ =~= method_constants(*j) + stub_constants(a) + leaf_constants(*j));
    match j.guard {
        Some(g) => {
            r.push((g.key_klass_bits, Some(RelocKind::KeyKlassOop)));
            r.push((g.resolve_addr, rt));
            if g.key_klass_bits == g.smi_klass_bits {
                r.push((g.smi_klass_bits, Some(RelocKind::Oop)));
            }
        },
        None => {},
    }
    assert(r@ =~= constants(*j));
    r
}

proof fn lemma_interned(c: Code, consts: Seq<(u64, Option<RelocKind>)>, k: int)
    requires
        0 <= k <= consts.len(),
        c.pool.len() + k <= u32::MAX,
    ensures
        interned(c, consts, k).insns == c.insns,
        interned(c, consts, k).labels == c.labels,
        interned(c, consts, k).finished == c.finished,
        c.pool.len() <= interned(c, consts, k).pool.len() <= c.pool.len() + k,
        forall|i: int| 0 <= i < k ==> (#[trigger] interned_id(c, consts, i)).0 < interned(c, consts, k).pool.len(),
    decreases k,
{
    if k > 0 {
        lemma_interned(c, consts, k - 1);
        lemma_pool_index_bound(interned(c, consts, k - 1).pool, consts[k - 1]);
    }
}

/// Interns the constants, one by one.
fn intern_pool<A: Assembler>(out: &mut A, consts: &Vec<(u64, Option<RelocKind>)>) -> (ids: Vec<LiteralId>)
    requires
        old(out).ok(),
    ensures
        final(out).ok(),
        final(out).code() == interned(old(out).code(), consts@, consts@.len() as int),
        ids@ == Seq::new(consts@.len(), |k: int| interned_id(old(out).code(), consts@, k)),
{
    let mut ids: Vec<LiteralId> = Vec::new();
    let mut i: usize = 0;
    while i < consts.len()
        invariant
            i <= consts@.len(),
            out.ok(),
            out.code() == interned(old(out).code(), consts@, i as int),
            ids@ == Seq::new(i as nat, |k: int| interned_id(old(out).code(), consts@, k)),
        decreases consts@.len() - i,
    {
        let e: (u64, Option<RelocKind>) = consts[i];
        ids.push(out.literal_u64(e.0, e.1));
        i += 1;
    }
    ids
}

/// Makes a label for each block of the order. The others share the first label.
fn new_labels<A: Assembler>(out: &mut A, in_order: &Vec<bool>, Ghost(order): Ghost<Seq<BlockId>>) -> (labels: Vec<Label>)
    requires
        old(out).ok(),
        in_order@.len() <= u32::MAX,
        in_order@ == Seq::new(in_order@.len(), |b: int| order.contains(BlockId(b as u32))),
    ensures
        final(out).ok(),
        final(out).code() == (Code {
            labels: old(out).code().labels + Seq::new(
                ordered_before(order, in_order@.len() as int),
                |i: int| None,
            ),
            ..old(out).code()
        }),
        labels@ == Seq::new(in_order@.len(), |b: int| block_label(old(out).code(), order, b)),
{
    let mut labels: Vec<Label> = Vec::new();
    let mut i: usize = 0;
    assert(old(out).code().labels + Seq::new(0, |i: int| None) =~= old(out).code().labels);
    while i < in_order.len()
        invariant
            i <= in_order@.len() <= u32::MAX,
            in_order@ == Seq::new(in_order@.len(), |b: int| order.contains(BlockId(b as u32))),
            out.ok(),
            out.code() == (Code {
                labels: old(out).code().labels + Seq::new(ordered_before(order, i as int), |i: int| None),
                ..old(out).code()
            }),
            labels@ == Seq::new(i as nat, |b: int| block_label(old(out).code(), order, b)),
        decreases in_order@.len() - i,
    {
        assert(in_order@[i as int] == order.contains(BlockId(i as u32)));
        if in_order[i] {
            labels.push(out.new_label());
            assert(out.code().labels =~= old(out).code().labels + Seq::new(
                ordered_before(order, i + 1),
                |i: int| None,
            ));
        } else {
            labels.push(Label(0));
        }
        i += 1;
    }
    labels
}

proof fn lemma_ordered_before(order: Seq<BlockId>, b: int, n: int)
    requires
        0 <= b <= n,
    ensures
        ordered_before(order, b) <= ordered_before(order, n) <= n,
        b < n && order.contains(BlockId(b as u32)) ==> ordered_before(order, b) < ordered_before(order, n),
    decreases n,
{
    if b < n {
        lemma_ordered_before(order, b, n - 1);
    } else if n > 0 {
        lemma_ordered_before(order, n - 1, n - 1);
    }
}

/// Each label that is made for a block is the label of one.
proof fn lemma_ordered_at(order: Seq<BlockId>, k: nat, n: int) -> (b: int)
    requires
        k < ordered_before(order, n),
    ensures
        0 <= b < n,
        order.contains(BlockId(b as u32)),
        ordered_before(order, b) == k,
    decreases n,
{
    if k < ordered_before(order, n - 1) {
        lemma_ordered_at(order, k, n - 1)
    } else {
        n - 1
    }
}

fn home_table(ivs: &Vec<LiveInterval>, n: usize) -> (t: Vec<Option<Assignment>>)
    requires
        n <= u32::MAX + 1,
        forall|i: int| 0 <= i < ivs@.len() ==> (#[trigger] ivs@[i]).vreg.0 < n,
    ensures
        t@ == Seq::new(n as nat, |v: int| assigned(ivs@, v as u32, ivs@.len() as int)),
{
    let mut t: Vec<Option<Assignment>> = Vec::new();
    let mut v: usize = 0;
    while v < n
        invariant
            v <= n,
            t@ == Seq::new(v as nat, |v: int| None::<Assignment>),
        decreases n - v,
    {
        t.push(None);
        v += 1;
    }
    assert(t@ =~= Seq::new(n as nat, |v: int| assigned(ivs@, v as u32, 0)));
    let mut i: usize = 0;
    while i < ivs.len()
        invariant
            i <= ivs@.len(),
            forall|i: int| 0 <= i < ivs@.len() ==> (#[trigger] ivs@[i]).vreg.0 < n,
            t@.len() == n,
            forall|v: u32| v < n ==> #[trigger] t@[v as int] == assigned(ivs@, v, i as int),
        decreases ivs@.len() - i,
    {
        let iv: LiveInterval = ivs[i];
        t.set(iv.vreg.0 as usize, iv.assignment);
        i += 1;
    }
    assert forall|v: int| 0 <= v < n implies #[trigger] t@[v] == assigned(ivs@, v as u32, ivs@.len() as int) by {
        assert(t@[(v as u32) as int] == assigned(ivs@, v as u32, ivs@.len() as int));
    }
    t
}

fn resident_table(ivs: &Vec<LiveInterval>, n: usize) -> (t: Vec<Option<u8>>)
    requires
        n <= u32::MAX + 1,
        forall|i: int| 0 <= i < ivs@.len() ==> (#[trigger] ivs@[i]).vreg.0 < n,
    ensures
        t@ == Seq::new(n as nat, |v: int| resident_of(ivs@, v as u32, ivs@.len() as int)),
{
    let mut t: Vec<Option<u8>> = Vec::new();
    let mut v: usize = 0;
    while v < n
        invariant
            v <= n,
            t@ == Seq::new(v as nat, |v: int| None::<u8>),
        decreases n - v,
    {
        t.push(None);
        v += 1;
    }
    assert(t@ =~= Seq::new(n as nat, |v: int| resident_of(ivs@, v as u32, 0)));
    let mut i: usize = 0;
    while i < ivs.len()
        invariant
            i <= ivs@.len(),
            forall|i: int| 0 <= i < ivs@.len() ==> (#[trigger] ivs@[i]).vreg.0 < n,
            t@.len() == n,
            forall|v: u32| v < n ==> #[trigger] t@[v as int] == resident_of(ivs@, v, i as int),
        decreases ivs@.len() - i,
    {
        let iv: LiveInterval = ivs[i];
        if iv.resident_reg.is_some() {
            t.set(iv.vreg.0 as usize, iv.resident_reg);
        }
        i += 1;
    }
    assert forall|v: int| 0 <= v < n implies #[trigger] t@[v] == resident_of(ivs@, v as u32, ivs@.len() as int) by {
        assert(t@[(v as u32) as int] == resident_of(ivs@, v as u32, ivs@.len() as int));
    }
    t
}

pub open spec fn opt_view(o: Option<&Vec<bool>>) -> Option<Seq<bool>> {
    match o {
        Some(v) => Some(v@),
        None => None,
    }
}

fn reload_table(ivs: &Vec<LiveInterval>, only: Option<&Vec<bool>>) -> (r: Vec<Reload>)
    requires
        only matches Some(o) ==> forall|i: int| 0 <= i < ivs@.len() ==> (#[trigger] ivs@[i]).vreg.0 < o@.len(),
    ensures
        r@ == reloads_of(ivs@, opt_view(only), ivs@.len() as int),
{
    let mut r: Vec<Reload> = Vec::new();
    let mut i: usize = 0;
    while i < ivs.len()
        invariant
            i <= ivs@.len(),
            only matches Some(o) ==> forall|i: int| 0 <= i < ivs@.len() ==> (#[trigger] ivs@[i]).vreg.0 < o@.len(),
            r@ == reloads_of(ivs@, opt_view(only), i as int),
        decreases ivs@.len() - i,
    {
        let iv: LiveInterval = ivs[i];
        let wanted: bool = match only {
            Some(o) => o[iv.vreg.0 as usize],
            None => true,
        };
        match iv.resident_reg {
            Some(reg) => match iv.assignment {
                Some(Assignment::Spill(slot)) => {
                    if wanted {
                        r.push(
                            Reload { vreg: iv.vreg.0, start: iv.start, end: iv.end, reg, slot, is_fp: iv.is_fp },
                        );
                    }
                },
                _ => {},
            },
            None => {},
        }
        i += 1;
    }
    r
}

fn has_started(ivs: &Vec<LiveInterval>, v: VReg, pos: u32) -> (r: bool)
    ensures
        r == started(ivs@, v, pos),
{
    let mut i: usize = 0;
    while i < ivs.len()
        invariant
            i <= ivs@.len(),
            forall|k: int| 0 <= k < i ==> !((#[trigger] ivs@[k]).vreg == v && ivs@[k].start <= pos),
        decreases ivs@.len() - i,
    {
        if ivs[i].vreg == v && ivs[i].start <= pos {
            assert(ivs@[i as int].vreg == v);
            return true;
        }
        i += 1;
    }
    false
}

fn extra_table(ivs: &Vec<LiveInterval>, s2: &Vec<bool>, extra: &Vec<(VReg, u32)>) -> (r: Vec<(u32, u32)>)
    requires
        forall|i: int| 0 <= i < extra@.len() ==> (#[trigger] extra@[i]).0.0 < s2@.len(),
    ensures
        r@ == extras_of(ivs@, s2@, extra@, extra@.len() as int),
{
    let mut r: Vec<(u32, u32)> = Vec::new();
    let mut i: usize = 0;
    while i < extra.len()
        invariant
            i <= extra@.len(),
            forall|i: int| 0 <= i < extra@.len() ==> (#[trigger] extra@[i]).0.0 < s2@.len(),
            r@ == extras_of(ivs@, s2@, extra@, i as int),
        decreases extra@.len() - i,
    {
        let (v, pos): (VReg, u32) = extra[i];
        assert(extra@[i as int].0.0 < s2@.len());
        if s2[v.0 as usize] && has_started(ivs, v, pos) {
            r.push((v.0, pos));
        }
        i += 1;
    }
    r
}

fn register_taken(ivs: &Vec<LiveInterval>, r: u8) -> (b: bool)
    ensures
        b == is_resident(ivs@, r),
{
    let mut i: usize = 0;
    while i < ivs.len()
        invariant
            i <= ivs@.len(),
            forall|k: int| 0 <= k < i ==> (#[trigger] ivs@[k]).resident_reg != Some(r),
        decreases ivs@.len() - i,
    {
        match ivs[i].resident_reg {
            Some(rr) => {
                if rr == r {
                    assert(ivs@[i as int].resident_reg == Some(r));
                    return true;
                }
            },
            None => {},
        }
        i += 1;
    }
    false
}

fn free_table(ivs: &Vec<LiveInterval>) -> (r: Vec<u8>)
    ensures
        r@ == free_regs(ivs@, 7),
        forall|i: int| 0 <= i < r@.len() ==> #[trigger] r@[i] < 31,
{
    let mut r: Vec<u8> = Vec::new();
    let mut k: u8 = 0;
    while k < 7
        invariant
            k <= 7,
            r@ == free_regs(ivs@, k as int),
            forall|i: int| 0 <= i < r@.len() ==> #[trigger] r@[i] < 31,
        decreases 7 - k,
    {
        if !register_taken(ivs, 21 + k) {
            r.push(21 + k);
        }
        k += 1;
    }
    r
}

fn order_table(order: &Vec<BlockId>, n: usize) -> (t: Vec<bool>)
    requires
        n <= u32::MAX,
        forall|i: int| 0 <= i < order@.len() ==> (#[trigger] order@[i]).0 < n,
    ensures
        t@ == Seq::new(n as nat, |b: int| order@.contains(BlockId(b as u32))),
{
    let mut t: Vec<bool> = Vec::new();
    let mut b: usize = 0;
    while b < n
        invariant
            b <= n,
            t@ == Seq::new(b as nat, |b: int| false),
        decreases n - b,
    {
        t.push(false);
        b += 1;
    }
    let mut i: usize = 0;
    while i < order.len()
        invariant
            i <= order@.len(),
            forall|i: int| 0 <= i < order@.len() ==> (#[trigger] order@[i]).0 < n,
            t@.len() == n,
            forall|b: u32|
                b < n ==> (#[trigger] t@[b as int] <==> exists|k: int| 0 <= k < i && #[trigger] order@[k] == BlockId(b)),
        decreases order@.len() - i,
    {
        let ghost before = t@;
        let id: BlockId = order[i];
        t.set(id.0 as usize, true);
        proof {
            assert forall|b: u32| b < n implies (#[trigger] t@[b as int] <==> exists|k: int|
                0 <= k < i + 1 && #[trigger] order@[k] == BlockId(b)) by {
                if b == id.0 {
                    assert(order@[i as int] == BlockId(b));
                } else {
                    assert(t@[b as int] == before[b as int]);
                }
            }
        }
        i += 1;
    }
    assert forall|b: int| 0 <= b < n implies #[trigger] t@[b] == order@.contains(BlockId(b as u32)) by {
        assert(t@[(b as u32) as int] <==> exists|k: int| 0 <= k < order@.len() && #[trigger] order@[k] == BlockId(b as u32));
    }
    t
}

fn float_table(vregs: &Vec<VRegInfo>) -> (t: Vec<bool>)
    ensures
        t@ == Seq::new(vregs@.len(), |v: int| vregs@[v].is_fp),
{
    let mut t: Vec<bool> = Vec::new();
    let mut i: usize = 0;
    while i < vregs.len()
        invariant
            i <= vregs@.len(),
            t@ == Seq::new(i as nat, |v: int| vregs@[v].is_fp),
        decreases vregs@.len() - i,
    {
        t.push(vregs[i].is_fp);
        i += 1;
    }
    t
}

fn first_ids(ids: &Vec<LiteralId>, n: usize) -> (r: Vec<LiteralId>)
    requires
        n <= ids@.len(),
    ensures
        r@ == ids@.take(n as int),
{
    let mut r: Vec<LiteralId> = Vec::new();
    let mut i: usize = 0;
    while i < n
        invariant
            i <= n,
            n <= ids@.len(),
            r@ == ids@.take(i as int),
        decreases n - i,
    {
        r.push(ids[i]);
        assert(ids@.take(i as int + 1) =~= ids@.take(i as int).push(ids@[i as int]));
        i += 1;
    }
    r
}

proof fn lemma_assigned(ivs: Seq<LiveInterval>, v: u32, k: int)
    requires
        0 <= k <= ivs.len(),
    ensures
        assigned(ivs, v, k) is Some ==> exists|i: int|
            0 <= i < k && (#[trigger] ivs[i]).vreg.0 == v && ivs[i].assignment == assigned(ivs, v, k),
    decreases k,
{
    if k > 0 {
        if ivs[k - 1].vreg.0 != v {
            lemma_assigned(ivs, v, k - 1);
        } else {
            assert(ivs[k - 1].assignment == assigned(ivs, v, k));
        }
    }
}

proof fn lemma_resident(ivs: Seq<LiveInterval>, v: u32, k: int)
    requires
        0 <= k <= ivs.len(),
    ensures
        resident_of(ivs, v, k) is Some ==> exists|i: int|
            0 <= i < k && (#[trigger] ivs[i]).resident_reg == resident_of(ivs, v, k),
    decreases k,
{
    if k > 0 {
        if ivs[k - 1].vreg.0 != v || ivs[k - 1].resident_reg is None {
            lemma_resident(ivs, v, k - 1);
        } else {
            assert(ivs[k - 1].resident_reg == resident_of(ivs, v, k));
        }
    }
}

/// With one interval per register, an interval's home is the register's.
proof fn lemma_home_of(ivs: Seq<LiveInterval>, i: int, k: int)
    requires
        0 <= i < k <= ivs.len(),
        forall|a: int, b: int| 0 <= a < b < ivs.len() ==> (#[trigger] ivs[a]).vreg != (#[trigger] ivs[b]).vreg,
    ensures
        assigned(ivs, ivs[i].vreg.0, k) == ivs[i].assignment,
    decreases k,
{
    if i < k - 1 {
        assert(ivs[i].vreg != ivs[k - 1].vreg);
        lemma_home_of(ivs, i, k - 1);
    }
}

proof fn lemma_reloads(p: Plan, ivs: Seq<LiveInterval>, only: Option<Seq<bool>>, k: int)
    requires
        0 <= k <= ivs.len(),
        forall|i: int| 0 <= i < ivs.len() ==> (#[trigger] ivs[i]).vreg.0 < p.assignment@.len() && interval_ok(
            ivs[i],
            p.frame_slots,
        ),
    ensures
        forall|i: int| 0 <= i < reloads_of(ivs, only, k).len() ==> p.reload_ok(#[trigger] reloads_of(ivs, only, k)[i]),
    decreases k,
{
    if k > 0 {
        lemma_reloads(p, ivs, only, k - 1);
        let prev = reloads_of(ivs, only, k - 1);
        let all = reloads_of(ivs, only, k);
        assert(interval_ok(ivs[k - 1], p.frame_slots));
        assert forall|i: int| 0 <= i < all.len() implies p.reload_ok(#[trigger] all[i]) by {
            if i < prev.len() {
                assert(all[i] == prev[i]);
            }
        }
    }
}

/// The tables of a job fit together.
proof fn lemma_plan_ok(p: Plan, j: Job, c: Code)
    requires
        job_ok(j),
        code_ready(j, c),
        plan_of(p, j, c),
        forall|i: int| 0 <= i < p.r1a_free@.len() ==> #[trigger] p.r1a_free@[i] < 31,
    ensures
        p.ok(),
        p.ids_ok(prepared(c, j).pool.len()),
{
    let ivs = j.regalloc.intervals@;
    let n = p.assignment@.len();
    assert forall|v: int| 0 <= v < n implies (match #[trigger] p.assignment@[v] {
        Some(Assignment::Reg(r)) => r < 31,
        Some(Assignment::Spill(s)) => s.0 < p.frame_slots,
        None => true,
    }) by {
        lemma_assigned(ivs, v as u32, ivs.len() as int);
    }
    assert forall|v: int| 0 <= v < n implies (#[trigger] p.resident@[v] matches Some(r) ==> r < 31) by {
        lemma_resident(ivs, v as u32, ivs.len() as int);
    }
    lemma_reloads(p, ivs, None, ivs.len() as int);
    lemma_reloads(p, ivs, Some(p.s2_smi@), ivs.len() as int);
    let ids = job_ids(c, j);
    lemma_interned(c, constants(j), constants(j).len() as int);
    assert forall|i: int| 0 <= i < ids.len() implies (#[trigger] ids[i]).0 < prepared(c, j).pool.len() by {
        assert(ids[i] == interned_id(c, constants(j), i));
    }
    assert(stub_constants(j.stubs).len() == 9);
    assert(constants(j).len() == j.method.pool@.len() + 9 + leaf_constants(j).len() + guard_constants(j).len());
}

/// Makes the plan.
#[verifier::spinoff_prover]
fn make_plan(
    j: &Job,
    ids: &Vec<LiteralId>,
    in_order: Vec<bool>,
    labels: Vec<Label>,
    epilogue: Label,
    Ghost(c): Ghost<Code>,
) -> (p: Plan)
    requires
        job_ok(*j),
        code_ready(*j, c),
        ids@ == job_ids(c, *j),
        in_order@ == Seq::new(j.method.blocks@.len(), |b: int| j.regalloc.block_order@.contains(BlockId(b as u32))),
        labels@ == Seq::new(j.method.blocks@.len(), |b: int| block_label(c, j.regalloc.block_order@, b)),
        epilogue == Label(
            (c.labels.len() + ordered_before(j.regalloc.block_order@, j.method.blocks@.len() as int)) as u32,
        ),
    ensures
        plan_of(p, *j, c),
        p.ok(),
        p.ids_ok(prepared(c, *j).pool.len()),
{
    let m: &IrMethod = j.method;
    let ra: &RegallocResult = j.regalloc;
    let n: usize = m.vregs.len();
    let k: usize = m.pool.len();
    assert(stub_constants(j.stubs).len() == 9);
    assert(constants(*j).len() == k + 9 + leaf_constants(*j).len() + guard_constants(*j).len());
    let t = SelectionInput {
        blocks: &m.blocks,
        intervals: &ra.intervals,
        block_order: &ra.block_order,
        block_start_pos: &ra.block_start_pos,
        safepoint_positions: &ra.safepoint_positions,
        extra_oop_live: &ra.extra_oop_live,
        known_smi: &j.env.known_smi,
        const_smi: &j.env.const_smi,
        const_pool: &j.env.const_pool,
    };
    assert(t == selection(*j));
    let s2: Vec<bool> = select_authoritative(&t, j.env.options.s2_mode != 0);
    let s2_stores: Vec<Reload> = reload_table(&ra.intervals, Some(&s2));
    proof {
        assert forall|i: int| 0 <= i < ra.extra_oop_live@.len() implies (#[trigger] ra.extra_oop_live@[i]).0.0
            < s2@.len() by {
            assert(has_interval(t, t.extra_oop_live@[i].0));
        }
    }
    let s2_extra: Vec<(u32, u32)> = extra_table(&ra.intervals, &s2, &ra.extra_oop_live);
    let leaf: Option<(LiteralId, LiteralId)> = if j.prim_shim.is_some() && j.env.leaf_prim.is_some() {
        Some((ids[k + 9], ids[k + 10]))
    } else {
        None
    };
    let mut p = Plan {
        assignment: home_table(&ra.intervals, n),
        resident: resident_table(&ra.intervals, n),
        reloads: reload_table(&ra.intervals, None),
        s2_smi: s2,
        s2_stores,
        s2_extra,
        known_smi: j.env.known_smi.clone(),
        proven_smi_at: proven_smi_positions(&m.blocks, &ra.block_order, &m.pool, n),
        const_smi: j.env.const_smi.clone(),
        const_pool: j.env.const_pool.clone(),
        vreg_is_fp: float_table(&m.vregs),
        literal_ids: first_ids(ids, k),
        labels,
        in_order,
        epilogue,
        true_lit: m.true_lit,
        false_lit: m.false_lit,
        nil_lit: m.nil_lit,
        mark_slots_lit: m.mark_slots_lit,
        mark_double_lit: m.mark_double_lit,
        double_klass_lit: m.double_klass_lit,
        float64x2_klass_lit: m.float64x2_klass_lit,
        float32x4_klass_lit: m.float32x4_klass_lit,
        int32x4_klass_lit: m.int32x4_klass_lit,
        stubs: StubLits {
            poll: ids[k],
            must_be_boolean: ids[k + 1],
            alloc_slow: ids[k + 2],
            box_double: ids[k + 3],
            box_float64x2: ids[k + 4],
            box_float32x4: ids[k + 5],
            box_int32x4: ids[k + 6],
            call_primitive: ids[k + 7],
            nlr_originate: ids[k + 8],
        },
        leaf_prim_lits: leaf,
        call_sites: m.call_sites.clone(),
        frame_slots: ra.frame_slots,
        r1a_free: free_table(&ra.intervals),
        r1a_profitable: Vec::new(),
        s2_mode: j.env.options.s2_mode,
        r1a_mode: j.env.options.r1a_mode,
        resident_across_calls: j.env.options.resident_across_calls,
    };
    if p.r1a_mode != 0 {
        let h = Homes {
            assignment: &p.assignment,
            resident: &p.resident,
            const_smi: &p.const_smi,
            const_pool: &p.const_pool,
        };
        proof {
            let ivs = ra.intervals@;
            assert forall|v: int| 0 <= v < p.assignment@.len() implies (#[trigger] p.assignment@[v] matches Some(
                Assignment::Spill(s),
            ) ==> s.0 < ra.frame_slots) by {
                lemma_assigned(ivs, v as u32, ivs.len() as int);
            }
            assert forall|b: int| 0 <= b < m.blocks@.len() implies block_regs_ok((#[trigger] m.blocks@[b]).code@, n as nat) by {
                assert forall|q: int| 0 <= q < m.blocks@[b].code@.len() implies regs_ok(
                    #[trigger] m.blocks@[b].code@[q],
                    n as nat,
                ) by {}
            }
        }
        let marks: Vec<bool> = r1a_profitable_positions(&m.blocks, &ra.block_order, &h, ra.frame_slots);
        p.r1a_profitable = marks;
    }
    proof {
        lemma_plan_ok(p, *j, c);
    }
    p
}

// ── The parts of an emission ────────────────────────────────────────────

/// The labels of the plan exist.
pub open spec fn labels_made(p: Plan, c: Code) -> bool {
    &&& p.epilogue.0 < c.labels.len()
    &&& forall|b: int| 0 <= b < p.labels@.len() ==> (#[trigger] p.labels@[b]).0 < c.labels.len()
}

impl<'a, A: Assembler> Emitter<'a, A> {
    /// The class guard before the verified entry.
    #[verifier::spinoff_prover]
    fn emit_entry_guard(&mut self, g: &EntryGuard, key: LiteralId, resolve: LiteralId, smi: LiteralId)
        requires
            old(self).ok(),
            key.0 < old(self).st().code.pool.len(),
            resolve.0 < old(self).st().code.pool.len(),
            g.key_klass_bits == g.smi_klass_bits ==> smi.0 < old(self).st().code.pool.len(),
        ensures
            *final(final(self).out) == *final(old(self).out),
            next(*old(self), *final(self), old(self).st().entry_guard(*g, key, resolve, smi)),
    {
        proof {
            lemma_mnemonics();
        }
        if g.key_klass_bits != g.smi_klass_bits {
            let miss: Label = self.lab();
            let matched: Label = self.lab();
            self.i2("tst", x(0), imm(3));
            self.bc(Cond::Eq, miss);
            self.i2("ldur", x(17), mem(0, 7));
            self.ldl(xr(16), key);
            self.i2("cmp", x(17), x(16));
            self.bc(Cond::Eq, matched);
            self.bind(miss);
            self.ldl(xr(16), resolve);
            self.i1("br", x(16));
            self.bind(matched);
        } else {
            let smi_case: Label = self.lab();
            let after: Label = self.lab();
            let matched: Label = self.lab();
            self.i2("tst", x(0), imm(3));
            self.bc(Cond::Eq, smi_case);
            self.i2("ldur", x(17), mem(0, 7));
            self.b(after);
            self.bind(smi_case);
            self.ldl(xr(17), smi);
            self.bind(after);
            self.ldl(xr(16), key);
            self.i2("cmp", x(17), x(16));
            self.bc(Cond::Eq, matched);
            self.ldl(xr(16), resolve);
            self.i1("br", x(16));
            self.bind(matched);
        }
    }

    #[verifier::spinoff_prover]
    fn emit_push_frame(&mut self, bytes: i64)
        requires
            old(self).ok(),
            0 <= bytes <= 4096,
        ensures
            *final(final(self).out) == *final(old(self).out),
            next(*old(self), *final(self), old(self).st().push_frame(bytes)),
    {
        proof {
            lemma_mnemonics();
        }
        self.i3("stp", x(29), x(30), mem_pre(31, -16));
        self.i2("mov", x(29), sp());
        if bytes > 0 {
            self.i3("sub", sp(), sp(), imm(bytes));
        }
    }

    #[verifier::spinoff_prover]
    fn emit_clear_slots(&mut self, slots: &Vec<SpillSlot>, pair: bool)
        requires
            old(self).ok(),
            forall|i: int| 0 <= i < slots@.len() ==> (#[trigger] slots@[i]).0 < old(self).p.frame_slots,
        ensures
            *final(final(self).out) == *final(old(self).out),
            next(*old(self), *final(self), old(self).st().clear_slots(slots@, pair, 0)),
    {
        proof {
            lemma_mnemonics();
        }
        let ghost goal = old(self).st().clear_slots(slots@, pair, 0);
        let mut k: usize = 0;
        while k < slots.len()
            invariant
                k <= slots@.len(),
                old(self).ok(),
                *final(self.out) == *final(old(self).out),
                next(*old(self), *self, self.st()),
                self.st().clear_slots(slots@, pair, k as int) == goal,
                forall|i: int| 0 <= i < slots@.len() ==> (#[trigger] slots@[i]).0 < old(self).p.frame_slots,
            decreases slots@.len() - k,
        {
            proof {
                lemma_mnemonics();
                assert(slots@[k as int].0 < self.p.frame_slots);
            }
            let here: SpillSlot = slots[k];
            if pair && k + 1 < slots.len() && slots[k + 1].0 == here.0 + 1 && spill_offset(slots[k + 1]) >= -512 {
                self.i3("stp", x(16), x(16), mem(29, spill_offset(slots[k + 1])));
                k += 2;
            } else {
                self.emit_spill_access("str", x(16), here);
                k += 1;
            }
        }
    }

    #[verifier::spinoff_prover]
    fn emit_entry(
        &mut self,
        slots: &Vec<SpillSlot>,
        pair: bool,
        prim: Option<(i64, u8)>,
        frameless: bool,
    )
        requires
            old(self).ok(),
            forall|i: int| 0 <= i < slots@.len() ==> (#[trigger] slots@[i]).0 < old(self).p.frame_slots,
            prim matches Some((id, _)) ==> 0 <= id < 65536,
        ensures
            *final(final(self).out) == *final(old(self).out),
            next(*old(self), *final(self), old(self).st().entry(*old(self).p, slots@, pair, prim, frameless)),
    {
        proof {
            lemma_epilogue_global(*self.p);
        }
        if !frameless {
            let bytes: i64 = frame_size(self.p.frame_slots);
            self.emit_push_frame(bytes);
            if slots.len() > 0 {
                let nil: LiteralId = self.lit(self.p.nil_lit);
                self.ldl(xr(16), nil);
                self.emit_clear_slots(slots, pair);
            }
        }
        match prim {
            Some((id, argc)) => {
                let epi: Label = self.p.epilogue;
                self.emit_prim_shim(id, argc, epi);
            },
            None => {},
        }
    }

    #[verifier::spinoff_prover]
    fn emit_op(&mut self, op: &Ir, following: Option<BlockId>)
        requires
            old(self).ok(),
            op_ok(*old(self).p, *op),
            old(self).pos < u32::MAX,
        ensures
            *final(final(self).out) == *final(old(self).out),
            reached(*old(self), *final(self), old(self).st().one_op(*old(self).p, *op, following)),
            op_logged(old(self).ic_sites@, final(self).ic_sites@, old(self).p.call_sites@, *op),
    {
        let pos: u32 = self.pos;
        if is_safepoint_op(op) {
            self.r1a_clear();
            self.in_sp = true;
        }
        self.emit_ir(op, following);
        self.pos = pos + 1;
        self.hits = Vec::new();
        self.in_sp = false;
        assert(self.hits@ =~= Seq::empty());
    }

    #[verifier::spinoff_prover]
    fn emit_block(
        &mut self,
        block: &IrBlock,
        id: BlockId,
        following: Option<BlockId>,
        Ghost(sends): Ghost<Seq<u16>>,
    )
        requires
            old(self).ok(),
            sends_logged(old(self).ic_sites@, old(self).p.call_sites@, sends),
            old(self).p.block(id),
            labels_made(*old(self).p, old(self).st().code),
            old(self).pos + block.code@.len() <= u32::MAX,
            forall|k: int| 0 <= k < block.code@.len() ==> op_ok(*old(self).p, #[trigger] block.code@[k]),
        ensures
            *final(final(self).out) == *final(old(self).out),
            reached(
                *old(self),
                *final(self),
                old(self).st().block_start(*old(self).p, id, block.bci).ops(
                    *old(self).p,
                    block.code@,
                    following,
                    block.code@.len() as int,
                ),
            ),
            final(self).st().code.is_bound(old(self).p.labels@[id.0 as int].0),
            final(self).pos == old(self).pos + block.code@.len(),
            sends_logged(
                final(self).ic_sites@,
                old(self).p.call_sites@,
                sends + sends_in(block.code@, block.code@.len() as int),
            ),
    {
        let l: Label = self.block_label(id);
        self.bind(l);
        self.bci = block.bci;
        self.r1a_clear();
        let ghost start = old(self).st().block_start(*old(self).p, id, block.bci);
        assert(self.st() == start);
        assert(self.st().code.is_bound(l.0));
        assert(sends + sends_in(block.code@, 0) =~= sends);
        let mut k: usize = 0;
        while k < block.code.len()
            invariant
                k <= block.code@.len(),
                sends_logged(self.ic_sites@, old(self).p.call_sites@, sends + sends_in(block.code@, k as int)),
                old(self).ok(),
                *final(self.out) == *final(old(self).out),
                reached(*old(self), *self, start.ops(*old(self).p, block.code@, following, k as int)),
                self.pos == old(self).pos + k,
                old(self).pos + block.code@.len() <= u32::MAX,
                self.st().code.is_bound(l.0),
                forall|k: int| 0 <= k < block.code@.len() ==> op_ok(*old(self).p, #[trigger] block.code@[k]),
            decreases block.code@.len() - k,
        {
            let ghost log = self.ic_sites@;
            self.emit_op(&block.code[k], following);
            proof {
                let so_far = sends + sends_in(block.code@, k as int);
                lemma_log_op(log, self.ic_sites@, old(self).p.call_sites@, block.code@[k as int], so_far);
                match block.code@[k as int] {
                    Ir::CallSend { site, .. } => {
                        assert(sends + sends_in(block.code@, k + 1) =~= so_far.push(site));
                    },
                    _ => {},
                }
            }
            k += 1;
        }
    }

    #[verifier::spinoff_prover]
    fn emit_leave(&mut self, frameless: bool)
        requires
            old(self).ok(),
            labels_made(*old(self).p, old(self).st().code),
        ensures
            *final(final(self).out) == *final(old(self).out),
            next(*old(self), *final(self), old(self).st().leave(*old(self).p, frameless)),
            final(self).st().code.is_bound(old(self).p.epilogue.0),
    {
        proof {
            lemma_mnemonics();
        }
        let epi: Label = self.p.epilogue;
        self.bind(epi);
        assert(self.st().code.is_bound(epi.0));
        if frameless {
            self.i0("ret");
        } else {
            self.i2("mov", sp(), x(29));
            self.i3("ldp", x(29), x(30), mem_post(31, 16));
            self.i0("ret");
        }
    }

    #[verifier::spinoff_prover]
    fn emit_clear_all(&mut self)
        requires
            old(self).ok(),
        ensures
            *final(final(self).out) == *final(old(self).out),
            next(*old(self), *final(self), old(self).st().clear_all(old(self).p.frame_slots as int)),
    {
        let n: u16 = self.p.frame_slots;
        let mut k: u16 = 0;
        while k < n
            invariant
                k <= n,
                n == old(self).p.frame_slots,
                old(self).ok(),
                *final(self.out) == *final(old(self).out),
                next(*old(self), *self, old(self).st().clear_all(k as int)),
            decreases n - k,
        {
            self.emit_spill_access("str", x(16), SpillSlot(k));
            k += 1;
        }
    }

    #[verifier::spinoff_prover]
    fn emit_copy_in(&mut self, copies: &Vec<SpillSlot>)
        requires
            old(self).ok(),
            copies@.len() <= 4096,
            forall|i: int| 0 <= i < copies@.len() ==> (#[trigger] copies@[i]).0 < old(self).p.frame_slots,
        ensures
            *final(final(self).out) == *final(old(self).out),
            next(*old(self), *final(self), old(self).st().copy_in(copies@, copies@.len() as int)),
    {
        let mut k: usize = 0;
        while k < copies.len()
            invariant
                k <= copies@.len(),
                copies@.len() <= 4096,
                old(self).ok(),
                *final(self.out) == *final(old(self).out),
                next(*old(self), *self, old(self).st().copy_in(copies@, k as int)),
                forall|i: int| 0 <= i < copies@.len() ==> (#[trigger] copies@[i]).0 < old(self).p.frame_slots,
            decreases copies@.len() - k,
        {
            proof {
                lemma_mnemonics();
                assert(copies@[k as int].0 < self.p.frame_slots);
            }
            let off: i64 = 8 * (k as i64);
            self.i2("ldr", x(16), mem(1, off));
            self.emit_spill_access("str", x(16), copies[k]);
            k += 1;
        }
    }

    /// The entry for on-stack replacement.
    #[verifier::spinoff_prover]
    fn emit_osr_entry(&mut self, osr: &EmitOsr)
        requires
            old(self).ok(),
            old(self).p.block(osr.header),
            osr.copies@.len() <= 4096,
            forall|i: int| 0 <= i < osr.copies@.len() ==> (#[trigger] osr.copies@[i]).0 < old(self).p.frame_slots,
        ensures
            *final(final(self).out) == *final(old(self).out),
            next(*old(self), *final(self), old(self).st().osr_entry(*old(self).p, *osr)),
    {
        self.r1a_clear();
        let bytes: i64 = frame_size(self.p.frame_slots);
        self.emit_push_frame(bytes);
        let nil: LiteralId = self.lit(self.p.nil_lit);
        self.ldl(xr(16), nil);
        self.emit_clear_all();
        self.emit_copy_in(&osr.copies);
        self.emit_resident_reloads_at(osr.reload_pos);
        let l: Label = self.block_label(osr.header);
        self.b(l);
    }
}

fn frame_size(slots: u16) -> (bytes: i64)
    requires
        slots <= 511,
    ensures
        bytes == frame_bytes(slots),
        0 <= bytes <= 4096,
        bytes % 16 == 0,
{
    16 * ((8 * slots as i64 + 15) / 16)
}

/// Validity does not shrink when more registers have homes and more blocks are emitted.
proof fn lemma_op_valid(
    op: Ir,
    has: spec_fn(VReg) -> bool,
    block: spec_fn(BlockId) -> bool,
    has2: spec_fn(VReg) -> bool,
    block2: spec_fn(BlockId) -> bool,
    lits: nat,
    sites: nat,
)
    requires
        op_valid(op, has, block, lits, sites),
        forall|v: VReg| has(v) ==> #[trigger] has2(v),
        forall|b: BlockId| block(b) ==> #[trigger] block2(b),
    ensures
        op_valid(op, has2, block2, lits, sites),
{
}

/// The emitted instructions can be lowered by the plan.
proof fn lemma_ops_ok(p: Plan, j: Job, c: Code, i: int, k: int)
    requires
        job_ok(j),
        plan_of(p, j, c),
        0 <= i < j.regalloc.block_order@.len(),
        0 <= k < j.method.blocks@[j.regalloc.block_order@[i].0 as int].code@.len(),
    ensures
        op_ok(p, j.method.blocks@[j.regalloc.block_order@[i].0 as int].code@[k]),
{
    let ivs = j.regalloc.intervals@;
    let op = j.method.blocks@[j.regalloc.block_order@[i].0 as int].code@[k];
    let has = |v: VReg| has_home(ivs, v);
    let block = |b: BlockId| j.regalloc.block_order@.contains(b);
    let has2 = |v: VReg| p.has(v);
    let block2 = |b: BlockId| p.block(b);
    assert(op_valid(op, has, block, j.method.pool@.len(), j.method.call_sites@.len()));
    assert forall|v: VReg| has(v) implies #[trigger] has2(v) by {
        let q = choose|q: int| 0 <= q < ivs.len() && (#[trigger] ivs[q]).vreg == v && ivs[q].assignment is Some;
        lemma_home_of(ivs, q, ivs.len() as int);
        assert(ivs[q].vreg.0 < j.method.vregs@.len());
        assert(p.assignment@[v.0 as int] == assigned(ivs, v.0, ivs.len() as int));
    }
    assert forall|b: BlockId| block(b) implies #[trigger] block2(b) by {
        lemma_block_emitted(p, j, c, b);
    }
    lemma_op_valid(op, has, block, has2, block2, j.method.pool@.len(), j.method.call_sites@.len());
    assert(p.literal_ids@.len() == j.method.pool@.len()) by {
        assert(constants(j).len() >= method_constants(j).len());
    }
}

proof fn lemma_block_emitted(p: Plan, j: Job, c: Code, b: BlockId)
    requires
        job_ok(j),
        plan_of(p, j, c),
        j.regalloc.block_order@.contains(b),
    ensures
        p.block(b),
{
    let order = j.regalloc.block_order@;
    let q = choose|q: int| 0 <= q < order.len() && order[q] == b;
    assert(order[q].0 < j.method.blocks@.len());
    assert(p.in_order@[b.0 as int] == order.contains(BlockId(b.0)));
}

/// A block adds to the code.
pub open spec fn grows(s: St, p: Plan, m: IrMethod, order: Seq<BlockId>, i: int) -> bool {
    s.blocks(p, m, order, i).code.insns.len() <= s.blocks(p, m, order, i + 1).code.insns.len()
}

proof fn lemma_grows(s: St, p: Plan, m: IrMethod, order: Seq<BlockId>, i: int, k: int, n: int)
    requires
        0 <= i <= k <= n,
        forall|a: int| 0 <= a < n ==> #[trigger] grows(s, p, m, order, a),
    ensures
        s.blocks(p, m, order, i).code.insns.len() <= s.blocks(p, m, order, k).code.insns.len(),
    decreases k - i,
{
    if i < k {
        lemma_grows(s, p, m, order, i, k - 1, n);
        assert(grows(s, p, m, order, k - 1));
    }
}

proof fn lemma_pcs_sorted(p: Plan, j: Job, c: Code)
    requires
        ascending(p, j, c),
        4 * at_end(p, j, c).code.insns.len() <= u32::MAX,
    ensures
        pcs_sorted(block_pcs_of(p, j, c)),
{
    let pcs = block_pcs_of(p, j, c);
    assert forall|i: int, k: int| 0 <= i <= k < pcs.len() implies (#[trigger] pcs[i]).pc_off <= (#[trigger] pcs[k]).pc_off by {
        assert(at_block(p, j, c, i).code.insns.len() <= at_block(p, j, c, k).code.insns.len()
            <= at_end(p, j, c).code.insns.len());
    }
}

/// All globals are bound once every emitted block and the epilogue are.
proof fn lemma_all_bound(p: Plan, j: Job, c: Code, code: Code)
    requires
        job_ok(j),
        plan_of(p, j, c),
        code.is_bound(p.epilogue.0),
        forall|i: int|
            0 <= i < j.regalloc.block_order@.len() ==> code.is_bound(
                p.labels@[(#[trigger] j.regalloc.block_order@[i]).0 as int].0,
            ),
        code.open_labels().subset_of(p.globals()),
    ensures
        forall|l: u32| code.needs(l) ==> #[trigger] code.is_bound(l),
{
    reveal(Plan::globals);
    reveal(Code::open_labels);
    assert forall|l: u32| code.needs(l) implies #[trigger] code.is_bound(l) by {
        if !code.is_bound(l) {
            assert(code.open_labels().contains(l));
            assert(p.globals().contains(l));
            if l != p.epilogue.0 {
                let b = choose|b: u32| #[trigger] p.block(BlockId(b)) && p.labels@[b as int].0 == l;
                assert(p.in_order@[b as int]);
                assert(j.regalloc.block_order@.contains(BlockId(b)));
                let i = choose|i: int|
                    0 <= i < j.regalloc.block_order@.len() && j.regalloc.block_order@[i] == BlockId(b);
                assert(code.is_bound(p.labels@[j.regalloc.block_order@[i].0 as int].0));
            }
        }
    }
}

proof fn lemma_ops_before_le(blocks: Seq<IrBlock>, order: Seq<BlockId>, i: int, k: int)
    requires
        0 <= i <= k,
    ensures
        ops_before(blocks, order, i) <= ops_before(blocks, order, k),
    decreases k - i,
{
    if i < k {
        lemma_ops_before_le(blocks, order, i, k - 1);
    }
}

impl<'a, A: Assembler> Emitter<'a, A> {
    /// Every block of the order. Returns where each starts.
    #[verifier::spinoff_prover]
    #[verifier::rlimit(60)]
    fn emit_blocks(&mut self, j: &Job, Ghost(c): Ghost<Code>) -> (pcs: Vec<BlockPc>)
        requires
            old(self).ok(),
            job_ok(*j),
            plan_of(*old(self).p, *j, c),
            old(self).pos == 0,
            old(self).ic_sites@.len() == 0,
            labels_made(*old(self).p, old(self).st().code),
        ensures
            *final(final(self).out) == *final(old(self).out),
            reached(
                *old(self),
                *final(self),
                old(self).st().blocks(
                    *old(self).p,
                    *j.method,
                    j.regalloc.block_order@,
                    j.regalloc.block_order@.len() as int,
                ),
            ),
            forall|i: int|
                0 <= i < j.regalloc.block_order@.len() ==> final(self).st().code.is_bound(
                    old(self).p.labels@[(#[trigger] j.regalloc.block_order@[i]).0 as int].0,
                ),
            pcs@ == Seq::new(
                j.regalloc.block_order@.len(),
                |i: int|
                    BlockPc {
                        pc_off: old(self).st().blocks(
                            *old(self).p,
                            *j.method,
                            j.regalloc.block_order@,
                            i,
                        ).code.offset(),
                        bci: j.method.blocks@[j.regalloc.block_order@[i].0 as int].bci,
                    },
            ),
            sends_logged(
                final(self).ic_sites@,
                j.method.call_sites@,
                sends_before(j.method.blocks@, j.regalloc.block_order@, j.regalloc.block_order@.len() as int),
            ),
            forall|i: int|
                0 <= i < j.regalloc.block_order@.len() ==> #[trigger] grows(
                    old(self).st(),
                    *old(self).p,
                    *j.method,
                    j.regalloc.block_order@,
                    i,
                ),
    {
        let order: &Vec<BlockId> = &j.regalloc.block_order;
        let blocks: &Vec<IrBlock> = &j.method.blocks;
        let mut pcs: Vec<BlockPc> = Vec::new();
        let mut i: usize = 0;
        while i < order.len()
            invariant
                i <= order@.len(),
                *order == j.regalloc.block_order,
                *blocks == j.method.blocks,
                old(self).ok(),
                *final(self.out) == *final(old(self).out),
                job_ok(*j),
                plan_of(*old(self).p, *j, c),
                labels_made(*old(self).p, old(self).st().code),
                reached(*old(self), *self, old(self).st().blocks(*old(self).p, *j.method, order@, i as int)),
                self.pos == ops_before(blocks@, order@, i as int),
                sends_logged(self.ic_sites@, j.method.call_sites@, sends_before(blocks@, order@, i as int)),
                forall|a: int| 0 <= a < i ==> #[trigger] grows(old(self).st(), *old(self).p, *j.method, order@, a),
                forall|k: int|
                    0 <= k < i ==> self.st().code.is_bound(old(self).p.labels@[(#[trigger] order@[k]).0 as int].0),
                pcs@.len() == i,
                forall|k: int|
                    0 <= k < i ==> #[trigger] pcs@[k] == (BlockPc {
                        pc_off: old(self).st().blocks(*old(self).p, *j.method, order@, k).code.offset(),
                        bci: blocks@[order@[k].0 as int].bci,
                    }),
            decreases order@.len() - i,
        {
            let id: BlockId = order[i];
            let ghost before = self.st();
            proof {
                assert(order@.contains(order@[i as int]));
                lemma_block_emitted(*self.p, *j, c, id);
                lemma_ops_before_le(blocks@, order@, i + 1, order@.len() as int);
                assert forall|k: int| 0 <= k < blocks@[id.0 as int].code@.len() implies op_ok(
                    *self.p,
                    #[trigger] blocks@[id.0 as int].code@[k],
                ) by {
                    lemma_ops_ok(*self.p, *j, c, i as int, k);
                }
            }
            let block: &IrBlock = &blocks[id.0 as usize];
            pcs.push(BlockPc { pc_off: self.out.offset(), bci: block.bci });
            let follow: Option<BlockId> = if i + 1 < order.len() {
                Some(order[i + 1])
            } else {
                None
            };
            assert(follow == following(order@, i as int));
            self.emit_block(block, id, follow, Ghost(sends_before(blocks@, order@, i as int)));
            assert(self.st() == before.block(*self.p, *j.method, order@, i as int));
            assert(grows(old(self).st(), *old(self).p, *j.method, order@, i as int));
            i += 1;
        }
        pcs
    }
}

proof fn lemma_clear_slots_pos(s: St, slots: Seq<SpillSlot>, pair: bool, k: int)
    ensures
        s.clear_slots(slots, pair, k).pos == s.pos,
    decreases slots.len() - k,
{
    if 0 <= k < slots.len() {
        if pair && k + 1 < slots.len() && slots[k + 1].0 == slots[k].0 + 1 && spill_off(slots[k + 1]) >= -512 {
            lemma_clear_slots_pos(
                s.i3("stp"@, spec_x(16), spec_x(16), spec_mem(29, spill_off(slots[k + 1]))),
                slots,
                pair,
                k + 2,
            );
        } else {
            lemma_clear_slots_pos(s.spill_access("str"@, spec_x(16), slots[k]), slots, pair, k + 1);
        }
    }
}

/// The first block starts at position zero.
proof fn lemma_body_pos(p: Plan, j: Job, c: Code)
    ensures
        at_body(p, j, c).pos == 0,
{
    let s = at_entry(p, j, c);
    assert(s.pos == 0);
    let s1 = s.push_frame(frame_bytes(p.frame_slots)).ldl(spec_xr(16), p.lit(p.nil_lit));
    lemma_clear_slots_pos(s1, j.regalloc.deopt_nil_init_slots@, j.env.options.prologue_stp, 0);
}

/// Constants leave nothing pending, and the labels that are made are the plan's.
proof fn lemma_prepared(p: Plan, c: Code, j: Job)
    requires
        job_ok(j),
        code_ready(j, c),
        plan_of(p, j, c),
        p.ok(),
    ensures
        prepared(c, j).literals_ok(),
        prepared(c, j).open_labels().subset_of(p.globals()),
        labels_made(p, prepared(c, j)),
        !prepared(c, j).finished,
{
    reveal(Code::open_labels);
    reveal(Plan::globals);
    reveal(Code::literals_ok);
    lemma_interned(c, constants(j), constants(j).len() as int);
    let n = prepared(c, j);
    let order = j.regalloc.block_order@;
    let count = j.method.blocks@.len() as int;
    lemma_ordered_before(order, 0, count);
    assert forall|b: int| 0 <= b < p.labels@.len() implies (#[trigger] p.labels@[b]).0 < n.labels.len() by {
        lemma_ordered_before(order, b, count);
        assert(p.labels@[b] == block_label(c, order, b));
    }
    assert forall|l: u32| n.open_labels().contains(l) implies p.globals().contains(l) by {
        if l < c.labels.len() {
            assert(n.labels[l as int] == c.labels[l as int]);
            assert(c.open_labels().contains(l));
        } else if n.refers(l) {
            let i = choose|i: int|
                0 <= i < n.insns.len() && #[trigger] insn_label(n.insns[i]) == Some(Label(l));
            assert(insn_label(c.insns[i]) == Some(Label(l)));
            assert(c.refers(l));
            assert(c.open_labels().contains(l));
        } else if l != p.epilogue.0 {
            let b = lemma_ordered_at(order, (l - c.labels.len()) as nat, count);
            assert(p.labels@[b] == block_label(c, order, b));
            assert(p.block(BlockId(b as u32)));
        }
    }
}

proof fn lemma_job_sizes(j: Job)
    ensures
        constants(j).len() == j.method.pool@.len() + 9 + leaf_constants(j).len() + guard_constants(j).len(),
        j.guard is Some ==> guard_at(j) + 2 <= constants(j).len(),
        j.guard matches Some(g) ==> (g.key_klass_bits == g.smi_klass_bits ==> guard_at(j) + 3 <= constants(j).len()),
{
    assert(stub_constants(j.stubs).len() == 9);
}

impl<'a, A: Assembler> Emitter<'a, A> {
    /// The guard, if there is one.
    #[verifier::spinoff_prover]
    fn emit_guard(&mut self, j: &Job, ids: &Vec<LiteralId>, Ghost(c): Ghost<Code>)
        requires
            old(self).ok(),
            old(self).st() == begun(*old(self).p, prepared(c, *j)),
            code_ready(*j, c),
            ids@ == job_ids(c, *j),
        ensures
            *final(final(self).out) == *final(old(self).out),
            next(*old(self), *final(self), at_entry(*old(self).p, *j, c)),
    {
        match &j.guard {
            Some(g) => {
                proof {
                    lemma_interned(c, constants(*j), constants(*j).len() as int);
                    lemma_job_sizes(*j);
                }
                let leaf: usize = if j.prim_shim.is_some() && j.env.leaf_prim.is_some() {
                    2
                } else {
                    0
                };
                let at: usize = j.method.pool.len() + 9 + leaf;
                assert(at == guard_at(*j));
                proof {
                    assert(ids@[at as int] == interned_id(c, constants(*j), at as int));
                    assert(ids@[at + 1] == interned_id(c, constants(*j), at + 1));
                }
                let mut smi: LiteralId = LiteralId(0);
                if g.key_klass_bits == g.smi_klass_bits {
                    assert(ids@[at + 2] == interned_id(c, constants(*j), at + 2));
                    smi = ids[at + 2];
                }
                self.emit_entry_guard(g, ids[at], ids[at + 1], smi);
            },
            None => {},
        }
    }

    /// The whole emission. Returns the block starts, the verified entry and the replacement entry.
    #[verifier::spinoff_prover]
    #[verifier::rlimit(60)]
    fn emit_all(&mut self, j: &Job, ids: &Vec<LiteralId>, Ghost(c): Ghost<Code>) -> (r: (Vec<BlockPc>, u32, Option<u32>))
        requires
            old(self).ok(),
            job_ok(*j),
            code_ready(*j, c),
            old(self).st() == begun(*old(self).p, prepared(c, *j)),
            ids@ == job_ids(c, *j),
            plan_of(*old(self).p, *j, c),
            labels_made(*old(self).p, prepared(c, *j)),
        ensures
            *final(final(self).out) == *final(old(self).out),
            reached(*old(self), *final(self), at_end(*old(self).p, *j, c)),
            final(self).st().code.is_bound(old(self).p.epilogue.0),
            forall|i: int|
                0 <= i < j.regalloc.block_order@.len() ==> final(self).st().code.is_bound(
                    old(self).p.labels@[(#[trigger] j.regalloc.block_order@[i]).0 as int].0,
                ),
            r.0@ == block_pcs_of(*old(self).p, *j, c),
            r.1 == at_entry(*old(self).p, *j, c).code.offset(),
            sends_logged(
                final(self).ic_sites@,
                j.method.call_sites@,
                sends_before(j.method.blocks@, j.regalloc.block_order@, j.regalloc.block_order@.len() as int),
            ),
            ascending(*old(self).p, *j, c),
            r.2 == match j.osr {
                Some(_) => Some(at_tail(*old(self).p, *j, c).code.offset()),
                None => None,
            },
    {
        self.emit_guard(j, ids, Ghost(c));
        let verified: u32 = self.out.offset();
        self.emit_entry(&j.regalloc.deopt_nil_init_slots, j.env.options.prologue_stp, j.prim_shim, j.frameless);
        assert(self.st() == at_body(*old(self).p, *j, c));
        proof {
            lemma_body_pos(*self.p, *j, c);
        }
        let pcs: Vec<BlockPc> = self.emit_blocks(j, Ghost(c));
        assert(self.st() == at_block(*old(self).p, *j, c, j.regalloc.block_order@.len() as int));
        assert(pcs@ =~= block_pcs_of(*old(self).p, *j, c));
        self.emit_leave(j.frameless);
        assert(self.st() == at_tail(*old(self).p, *j, c));
        let mut osr_off: Option<u32> = None;
        match j.osr {
            Some(o) => {
                osr_off = Some(self.out.offset());
                proof {
                    lemma_block_emitted(*self.p, *j, c, o.header);
                }
                self.emit_osr_entry(o);
            },
            None => {},
        }
        proof {
            let n = j.regalloc.block_order@.len() as int;
            assert forall|i: int, k: int| 0 <= i <= k <= n implies (#[trigger] at_block(
                *old(self).p,
                *j,
                c,
                i,
            )).code.insns.len() <= (#[trigger] at_block(*old(self).p, *j, c, k)).code.insns.len() <= at_end(
                *old(self).p,
                *j,
                c,
            ).code.insns.len() by {
                lemma_grows(at_body(*old(self).p, *j, c), *old(self).p, *j.method, j.regalloc.block_order@, i, k, n);
                lemma_grows(at_body(*old(self).p, *j, c), *old(self).p, *j.method, j.regalloc.block_order@, k, n, n);
            }
        }
        (pcs, verified, osr_off)
    }
}

/// Emits what the plan says and finishes the code.
#[verifier::spinoff_prover]
#[verifier::rlimit(60)]
fn emit_planned<A: Assembler>(out: &mut A, plan: &Plan, j: &Job, ids: &Vec<LiteralId>, Ghost(c): Ghost<Code>) -> (r:
    Emitted)
    requires
        old(out).ok(),
        job_ok(*j),
        code_ready(*j, c),
        old(out).code() == prepared(c, *j),
        ids@ == job_ids(c, *j),
        plan_of(*plan, *j, c),
        plan.ok(),
        plan.ids_ok(prepared(c, *j).pool.len()),
    ensures
        final(out).ok(),
        emitted(*plan, *j, c, r),
        sends_logged(
            r.3@,
            j.method.call_sites@,
            sends_before(j.method.blocks@, j.regalloc.block_order@, j.regalloc.block_order@.len() as int),
        ),
        4 * r.0.listing@.len() <= u32::MAX ==> pcs_sorted(r.1@) && at_calls(r.3@, r.0.code@),
        final(out).code() == (Code {
            insns: Seq::empty(),
            labels: Seq::empty(),
            finished: true,
            ..at_end(*plan, *j, c).code
        }),
{
    let mut shadow: Vec<Option<u8>> = Vec::new();
    let mut of_reg: Vec<Option<u16>> = Vec::new();
    let mut i: usize = 0;
    while i < plan.frame_slots as usize
        invariant
            i <= plan.frame_slots,
            shadow@ == Seq::new(i as nat, |i: int| None::<u8>),
        decreases plan.frame_slots - i,
    {
        shadow.push(None);
        i += 1;
    }
    let mut k: usize = 0;
    while k < 32
        invariant
            k <= 32,
            of_reg@ == Seq::new(k as nat, |i: int| None::<u16>),
        decreases 32 - k,
    {
        of_reg.push(None);
        k += 1;
    }
    proof {
        lemma_prepared(*plan, c, *j);
        lemma_job_sizes(*j);
        lemma_interned(c, constants(*j), constants(*j).len() as int);
        lemma_no_mirrors(*plan, shadow@, of_reg@);
    }
    let mut e = Emitter {
        p: plan,
        out: &mut *out,
        pos: 0,
        bci: 0,
        safepoints: Vec::new(),
        ic_sites: Vec::new(),
        shadow,
        of_reg,
        hits: Vec::new(),
        in_sp: false,
    };
    assert(e.st() =~= begun(*plan, prepared(c, *j)));
    assert(labels_made(*plan, prepared(c, *j)));
    let ghost open0 = e.st().code.open_labels();
    let (pcs, verified, osr_off): (Vec<BlockPc>, u32, Option<u32>) = e.emit_all(j, ids, Ghost(c));
    proof {
        assert(open0.union(plan.globals()) =~= plan.globals());
        lemma_all_bound(*plan, *j, c, e.st().code);
    }
    let ghost done = e.st();
    let blob: CodeBlob = e.out.finish();
    proof {
        if 4 * at_end(*plan, *j, c).code.insns.len() <= u32::MAX {
            lemma_pcs_sorted(*plan, *j, c);
            let base = prepared(c, *j).sites().len() as int;
            assert(recorded(begun(*plan, prepared(c, *j)).ic_sites, prepared(c, *j).sites(), base));
            assert(recorded(done.ic_sites, done.code.sites(), base));
            lemma_at_calls(done.ic_sites, done.code, base, blob);
        }
    }
    (blob, pcs, verified, e.ic_sites, e.safepoints, osr_off, first_ids(ids, j.method.pool.len()))
}

/// Emits a method: the class guard if there is one, the verified entry with its frame and its
/// primitive, every block of the order, the shared epilogue, and the entry for on-stack
/// replacement if there is one; then finishes the code. Returns the code, the start of each
/// block, the offset of the verified entry, one record per send and per safepoint in the order
/// of emission, the offset of the replacement entry, and the handles of the method's constants.
/// Where offsets do not wrap, the blocks start in order, and the records of sends ascend and stand
/// at their calls.
pub fn emit<A: Assembler>(
    out: &mut A,
    method: &IrMethod,
    regalloc: &RegallocResult,
    stub_poll_addr: u64,
    must_be_boolean_addr: u64,
    alloc_slow_addr: u64,
    box_double_addr: u64,
    box_float64x2_addr: u64,
    box_float32x4_addr: u64,
    box_int32x4_addr: u64,
    call_primitive_addr: u64,
    nlr_originate_addr: u64,
    prim_shim: Option<(i64, u8)>,
    guard: Option<EntryGuard>,
    osr: Option<&EmitOsr>,
    frameless: bool,
    env: &EmitEnv,
) -> (r: Emitted)
    requires
        old(out).ok(),
        job_ok(
            (Job {
                method,
                regalloc,
                stubs: stub_addrs(
                    stub_poll_addr,
                    must_be_boolean_addr,
                    alloc_slow_addr,
                    box_double_addr,
                    box_float64x2_addr,
                    box_float32x4_addr,
                    box_int32x4_addr,
                    call_primitive_addr,
                    nlr_originate_addr,
                ),
                prim_shim,
                guard,
                osr,
                frameless,
                env,
            }),
        ),
        code_ready(
            (Job {
                method,
                regalloc,
                stubs: stub_addrs(
                    stub_poll_addr,
                    must_be_boolean_addr,
                    alloc_slow_addr,
                    box_double_addr,
                    box_float64x2_addr,
                    box_float32x4_addr,
                    box_int32x4_addr,
                    call_primitive_addr,
                    nlr_originate_addr,
                ),
                prim_shim,
                guard,
                osr,
                frameless,
                env,
            }),
            old(out).code(),
        ),
    ensures
        final(out).ok(),
        emission(
            (Job {
                method,
                regalloc,
                stubs: stub_addrs(
                    stub_poll_addr,
                    must_be_boolean_addr,
                    alloc_slow_addr,
                    box_double_addr,
                    box_float64x2_addr,
                    box_float32x4_addr,
                    box_int32x4_addr,
                    call_primitive_addr,
                    nlr_originate_addr,
                ),
                prim_shim,
                guard,
                osr,
                frameless,
                env,
            }),
            old(out).code(),
            r,
            final(out).code(),
        ),
        sends_logged(
            r.3@,
            method.call_sites@,
            sends_before(method.blocks@, regalloc.block_order@, regalloc.block_order@.len() as int),
        ),
        4 * r.0.listing@.len() <= u32::MAX ==> pcs_sorted(r.1@) && at_calls(r.3@, r.0.code@),
{
    let job = Job {
        method,
        regalloc,
        stubs: StubAddrs {
            poll: stub_poll_addr,
            must_be_boolean: must_be_boolean_addr,
            alloc_slow: alloc_slow_addr,
            box_double: box_double_addr,
            box_float64x2: box_float64x2_addr,
            box_float32x4: box_float32x4_addr,
            box_int32x4: box_int32x4_addr,
            call_primitive: call_primitive_addr,
            nlr_originate: nlr_originate_addr,
        },
        prim_shim,
        guard,
        osr,
        frameless,
        env,
    };
    let j: &Job = &job;
    let ghost c = out.code();
    let consts: Vec<(u64, Option<RelocKind>)> = constant_list(j);
    let ids: Vec<LiteralId> = intern_pool(out, &consts);
    proof {
        lemma_interned(c, constants(*j), constants(*j).len() as int);
    }
    let in_order: Vec<bool> = order_table(&regalloc.block_order, method.blocks.len());
    let labels: Vec<Label> = new_labels(out, &in_order, Ghost(regalloc.block_order@));
    let epilogue: Label = out.new_label();
    assert(labels@ =~= Seq::new(method.blocks@.len(), |b: int| block_label(c, regalloc.block_order@, b)));
    assert(ids@ =~= job_ids(c, *j));
    assert(out.code().labels =~= prepared(c, *j).labels);
    let plan: Plan = make_plan(j, &ids, in_order, labels, epilogue, Ghost(c));
    let r: Emitted = emit_planned(out, &plan, j, &ids, Ghost(c));
    assert(plan_of(plan, *j, c));
    r
}

/// A frameless method has no instruction between its verified entry and its first block, and
/// its epilogue is the return alone.
pub proof fn law_frameless_has_no_frame(p: Plan, j: Job, c: Code)
    requires
        job_ok(j),
        j.frameless,
    ensures
        at_body(p, j, c) == at_entry(p, j, c),
        at_end(p, j, c).code.insns == at_block(p, j, c, j.regalloc.block_order@.len() as int).code.insns.push(
            Insn::Op("ret"@, Seq::empty()),
        ),
{
}

/// Without a guard the verified entry is where the code starts.
pub proof fn law_unguarded_entry(p: Plan, j: Job, c: Code)
    requires
        code_ready(j, c),
        j.guard is None,
    ensures
        at_entry(p, j, c).code.offset() == c.offset(),
{
    lemma_interned(c, constants(j), constants(j).len() as int);
}

/// A jump to the block that follows adds no instruction; one to any other block adds one branch.
pub proof fn law_fallthrough(s: St, p: Plan, target: BlockId, following: Option<BlockId>)
    ensures
        following == Some(target) ==> s.emit_op(p, Ir::Jump { target }, following) == s,
        following != Some(target) ==> s.emit_op(p, Ir::Jump { target }, following).code.insns == s.code.insns.push(
            Insn::B(p.labels@[target.0 as int]),
        ),
{
    reveal(St::emit_op);
}

/// The addresses, in the order of [`emit`]'s parameters.
pub open spec fn stub_addrs(
    poll: u64,
    must_be_boolean: u64,
    alloc_slow: u64,
    box_double: u64,
    box_float64x2: u64,
    box_float32x4: u64,
    box_int32x4: u64,
    call_primitive: u64,
    nlr_originate: u64,
) -> StubAddrs {
    StubAddrs {
        poll,
        must_be_boolean,
        alloc_slow,
        box_double,
        box_float64x2,
        box_float32x4,
        box_int32x4,
        call_primitive,
        nlr_originate,
    }
}

/// The result and the assembler's state after it are those of the job's plan.
pub open spec fn emission(j: Job, c: Code, r: Emitted, after: Code) -> bool {
    exists|p: Plan| #[trigger] plan_of(p, j, c) && emitted(p, j, c, r) && after == (Code {
        insns: Seq::empty(),
        labels: Seq::empty(),
        finished: true,
        ..at_end(p, j, c).code
    })
}


proof fn lemma_clear_all_keeps_safepoints(s: St, k: int)
    ensures
        s.clear_all(k).safepoints == s.safepoints,
    decreases k,
{
    if k > 0 {
        lemma_clear_all_keeps_safepoints(s, k - 1);
    }
}

proof fn lemma_copy_in_keeps_safepoints(s: St, copies: Seq<SpillSlot>, k: int)
    ensures
        s.copy_in(copies, k).safepoints == s.safepoints,
    decreases k,
{
    if k > 0 {
        lemma_copy_in_keeps_safepoints(s, copies, k - 1);
    }
}

proof fn lemma_reloads_keep_safepoints(s: St, p: Plan, pos: u32, skip: Option<VReg>, k: int)
    ensures
        s.reloads_upto(p, pos, skip, k).safepoints == s.safepoints,
    decreases k,
{
    if k > 0 {
        lemma_reloads_keep_safepoints(s, p, pos, skip, k - 1);
    }
}

/// The entry for on-stack replacement records no safepoint: while it runs, only the buffer holds
/// the values.
pub proof fn law_replacement_entry_has_no_safepoint(s: St, p: Plan, osr: EmitOsr)
    ensures
        s.osr_entry(p, osr).safepoints == s.safepoints,
{
    let s1 = s.clear().push_frame(frame_bytes(p.frame_slots)).ldl(spec_xr(16), p.lit(p.nil_lit));
    let s2 = s1.clear_all(p.frame_slots as int);
    let s3 = s2.copy_in(osr.copies@, osr.copies@.len() as int);
    lemma_clear_all_keeps_safepoints(s1, p.frame_slots as int);
    lemma_copy_in_keeps_safepoints(s2, osr.copies@, osr.copies@.len() as int);
    lemma_reloads_keep_safepoints(s3, p, osr.reload_pos, None, p.reloads@.len() as int);
}

} // verus!
