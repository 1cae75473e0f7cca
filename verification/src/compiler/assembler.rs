//! The assembler interface that the code emitter writes to, and what it hands back.
//!
//! An assembler is modelled by [`Code`]: the instructions so far, where each label is bound, and
//! the literal pool. [`image`] says which bytes that code stands for once it is finished.
use vstd::prelude::*;
pub use crate::compiler::a64::{Addr, Arr, Cond, ElemSize, Mem, Operand, Reg, RegClass, Shift};
#[allow(unused_imports)]
use crate::compiler::a64::{cond_code, cond_title, encodable, operands_text, reg_text, word_of};
#[allow(unused_imports)]
use crate::text::{dec_text, hex_text};

verus! {

/// What a relocated word holds.
#[derive(Clone, Copy, Debug, PartialEq, Eq, Structural)]
pub enum RelocKind {
    /// An object pointer in the literal pool.
    Oop,
    /// The customization key's class, in the literal pool.
    KeyKlassOop,
    /// A patchable call site.
    InlineCache,
    /// The address of a runtime routine, in the literal pool.
    RuntimeAddr,
    /// An address inside the blob.
    InternalWord,
}

/// One relocation site. For a pool kind `offset` is that of the eight-byte pool word; for an
/// inline cache it is that of the call instruction.
#[derive(Clone, Copy, Debug, PartialEq, Eq, Structural)]
pub struct Reloc {
    pub offset: u32,
    pub kind: RelocKind,
}

/// A position in the code that can be bound and branched to.
#[derive(Clone, Copy, Debug, PartialEq, Eq, Structural)]
pub struct Label(pub u32);

/// A handle to an interned literal-pool constant.
#[derive(Clone, Copy, Debug, PartialEq, Eq, Structural)]
pub struct LiteralId(pub u32);

/// Finished, position-independent code: instructions first, then an eight-byte aligned literal
/// pool that starts at `literal_off`.
pub struct CodeBlob {
    pub code: Vec<u8>,
    pub literal_off: u32,
    pub relocs: Vec<Reloc>,
    /// One line of text per instruction.
    pub listing: Vec<String>,
}

/// One instruction word, before its displacement is known.
pub enum Insn {
    Op(Seq<char>, Seq<Operand>),
    Raw(u32),
    B(Label),
    BCond(Cond, Label),
    Cbz(Reg, Label),
    Cbnz(Reg, Label),
    Tbz(Reg, u8, Label),
    Tbnz(Reg, u8, Label),
    LdrLit(Reg, LiteralId),
    Bl(RelocKind),
}

/// The state of an assembler.
pub struct Code {
    pub insns: Seq<Insn>,
    /// For each label the instruction it stands before, once bound.
    pub labels: Seq<Option<nat>>,
    pub pool: Seq<(u64, Option<RelocKind>)>,
    pub finished: bool,
}

/// A number modulo the width of an offset.
pub open spec fn wrap(n: int) -> u32 {
    (n % 0x1_0000_0000) as u32
}

/// The byte offset of instruction `n`.
pub open spec fn word_offset(n: nat) -> u32 {
    wrap(4 * n as int)
}

/// Where a pool constant stands: its first occurrence, or the end where it is new.
pub open spec fn pool_index(pool: Seq<(u64, Option<RelocKind>)>, e: (u64, Option<RelocKind>)) -> nat
    decreases pool.len(),
{
    if pool.len() == 0 {
        0
    } else {
        let i = pool_index(pool.drop_last(), e);
        if i < pool.len() - 1 {
            i
        } else if pool.last() == e {
            i
        } else {
            pool.len()
        }
    }
}

impl Code {
    /// No instruction, no label, no constant.
    pub open spec fn empty() -> Code {
        Code { insns: Seq::empty(), labels: Seq::empty(), pool: Seq::empty(), finished: false }
    }

    /// The current byte offset.
    pub open spec fn offset(self) -> u32 {
        word_offset(self.insns.len())
    }

    /// One more instruction.
    pub open spec fn with(self, i: Insn) -> Code {
        Code { insns: self.insns.push(i), ..self }
    }

    /// One more instruction, by name and operands.
    pub open spec fn op(self, name: Seq<char>, ops: Seq<Operand>) -> Code {
        self.with(Insn::Op(name, ops))
    }

    /// The label that is handed out next.
    pub open spec fn next_label(self) -> Label {
        Label(self.labels.len() as u32)
    }

    /// One more label, not bound yet.
    pub open spec fn with_label(self) -> Code {
        Code { labels: self.labels.push(None), ..self }
    }

    /// `l` bound here.
    pub open spec fn bound(self, l: Label) -> Code {
        Code { labels: self.labels.update(l.0 as int, Some(self.insns.len())), ..self }
    }

    /// The handle of a pool constant.
    pub open spec fn literal_id(self, v: u64, kind: Option<RelocKind>) -> LiteralId {
        LiteralId(pool_index(self.pool, (v, kind)) as u32)
    }

    /// The pool with the constant in it.
    pub open spec fn with_literal(self, v: u64, kind: Option<RelocKind>) -> Code {
        if pool_index(self.pool, (v, kind)) < self.pool.len() {
            self
        } else {
            Code { pool: self.pool.push((v, kind)), ..self }
        }
    }

    /// The labels that were handed out, or that an instruction branches to, and that are not bound.
    #[verifier::opaque]
    pub open spec fn open_labels(self) -> Set<u32> {
        Set::new(|l: u32| self.needs(l) && !self.is_bound(l))
    }

    /// Whether a label was handed out, or an instruction branches to it.
    pub open spec fn needs(self, l: u32) -> bool {
        l < self.labels.len() || self.refers(l)
    }

    /// Whether an instruction branches to a label.
    pub open spec fn refers(self, l: u32) -> bool {
        exists|i: int| 0 <= i < self.insns.len() && #[trigger] insn_label(self.insns[i]) == Some(Label(l))
    }

    /// The patchable call sites, in order.
    #[verifier::opaque]
    pub open spec fn sites(self) -> Seq<Reloc> {
        site_relocs(self.insns)
    }

    /// Whether a label is bound.
    pub open spec fn is_bound(self, l: u32) -> bool {
        l < self.labels.len() && self.labels[l as int] is Some
    }

    /// Every literal load names a constant of the pool.
    #[verifier::opaque]
    pub open spec fn literals_ok(self) -> bool {
        forall|i: int|
            0 <= i < self.insns.len() ==> (#[trigger] self.insns[i] matches Insn::LdrLit(_, lit) ==> lit.0
                < self.pool.len())
    }

    /// A call of the address in the pool constant, through `x16`.
    pub open spec fn far_call(self, target: LiteralId) -> Code {
        self.with(Insn::LdrLit(spec_xr(16), target)).op("blr"@, seq![spec_x(16)])
    }
}

/// The label that an instruction branches to.
pub open spec fn insn_label(i: Insn) -> Option<Label> {
    match i {
        Insn::B(l) => Some(l),
        Insn::BCond(_, l) => Some(l),
        Insn::Cbz(_, l) => Some(l),
        Insn::Cbnz(_, l) => Some(l),
        Insn::Tbz(_, _, l) => Some(l),
        Insn::Tbnz(_, _, l) => Some(l),
        _ => None,
    }
}

/// The word of a compare-and-branch with displacement zero.
pub open spec fn cbz_word(r: Reg, nz: bool) -> u32 {
    let sf = if r.class is X {
        1u32
    } else {
        0u32
    };
    let op = if nz {
        1u32
    } else {
        0u32
    };
    (sf << 31) | 0x3400_0000 | (op << 24) | (r.num as u32)
}

/// The word of a test-bit-and-branch with displacement zero.
pub open spec fn tbz_word(r: Reg, bit: u8, nz: bool) -> u32 {
    let b5 = (bit >> 5) as u32;
    let b40 = (bit & 0x1F) as u32;
    let op = if nz {
        1u32
    } else {
        0u32
    };
    (b5 << 31) | 0x3600_0000 | (op << 24) | (b40 << 19) | (r.num as u32)
}

/// The instruction word with displacement zero.
pub open spec fn base_word(i: Insn) -> u32 {
    match i {
        Insn::Op(name, ops) => word_of(name, ops),
        Insn::Raw(w) => w,
        Insn::B(_) => 0x1400_0000,
        Insn::BCond(c, _) => 0x5400_0000 | cond_code(c),
        Insn::Cbz(r, _) => cbz_word(r, false),
        Insn::Cbnz(r, _) => cbz_word(r, true),
        Insn::Tbz(r, bit, _) => tbz_word(r, bit, false),
        Insn::Tbnz(r, bit, _) => tbz_word(r, bit, true),
        Insn::LdrLit(r, _) => 0x5800_0000 | (r.num as u32),
        Insn::Bl(_) => 0x9400_0000,
    }
}

/// The instruction, in words from the start, at which the pool begins: the first even one.
pub open spec fn pool_word(n: nat) -> nat {
    n + n % 2
}

/// The displacement field of a branch over `delta` words.
pub open spec fn branch_field(i: Insn, delta: u32) -> u32 {
    match i {
        Insn::B(_) => delta & 0x03FF_FFFF,
        Insn::Tbz(_, _, _) => (delta & 0x3FFF) << 5,
        Insn::Tbnz(_, _, _) => (delta & 0x3FFF) << 5,
        _ => (delta & 0x7FFFF) << 5,
    }
}

/// Instruction `i` of the code with its displacement in place: a branch reaches its label, a
/// literal load reaches its pool word.
pub open spec fn final_word(c: Code, i: int) -> u32 {
    let insn = c.insns[i];
    match insn {
        Insn::LdrLit(_, lit) => base_word(insn) | branch_field(
            insn,
            wrap(pool_word(c.insns.len()) + 2 * lit.0 - i),
        ),
        _ => match insn_label(insn) {
            Some(l) => base_word(insn) | branch_field(insn, wrap(c.labels[l.0 as int]->0 - i)),
            None => base_word(insn),
        },
    }
}

/// The pool as words, the low half of each constant first.
pub open spec fn pool_words(pool: Seq<(u64, Option<RelocKind>)>) -> Seq<u32> {
    Seq::new(
        2 * pool.len(),
        |k: int|
            if k % 2 == 0 {
                (pool[k / 2].0 & 0xFFFF_FFFF) as u32
            } else {
                (pool[k / 2].0 >> 32) as u32
            },
    )
}

/// The finished code as words: instructions, padding to an even count, pool.
pub open spec fn image_words(c: Code) -> Seq<u32> {
    Seq::new(c.insns.len(), |i: int| final_word(c, i)) + Seq::new(c.insns.len() % 2, |i: int| 0u32) + pool_words(
        c.pool,
    )
}

/// Byte `j` of a word, least significant first.
pub open spec fn byte_of(w: u32, j: int) -> u8 {
    if j == 0 {
        (w & 0xFF) as u8
    } else if j == 1 {
        ((w >> 8) & 0xFF) as u8
    } else if j == 2 {
        ((w >> 16) & 0xFF) as u8
    } else {
        ((w >> 24) & 0xFF) as u8
    }
}

/// Words as little-endian bytes.
pub open spec fn le_bytes(words: Seq<u32>) -> Seq<u8> {
    Seq::new(4 * words.len(), |k: int| byte_of(words[k / 4], k % 4))
}

/// The bytes of the finished code.
pub open spec fn image(c: Code) -> Seq<u8> {
    le_bytes(image_words(c))
}

/// The relocations of patchable call sites among the first instructions, in order.
pub open spec fn site_relocs(insns: Seq<Insn>) -> Seq<Reloc>
    decreases insns.len(),
{
    if insns.len() == 0 {
        Seq::empty()
    } else {
        let rest = site_relocs(insns.drop_last());
        match insns.last() {
            Insn::Bl(kind) => rest.push(Reloc { offset: word_offset((insns.len() - 1) as nat), kind }),
            _ => rest,
        }
    }
}

/// The relocations of pool words, in pool order.
pub open spec fn pool_relocs(pool: Seq<(u64, Option<RelocKind>)>, literal_off: u32) -> Seq<Reloc>
    decreases pool.len(),
{
    if pool.len() == 0 {
        Seq::empty()
    } else {
        let rest = pool_relocs(pool.drop_last(), literal_off);
        match pool.last().1 {
            Some(kind) => rest.push(
                Reloc { offset: wrap(literal_off + 8 * (pool.len() - 1)), kind },
            ),
            None => rest,
        }
    }
}

/// How the listing writes a relocation kind.
pub open spec fn reloc_text(k: RelocKind) -> Seq<char> {
    match k {
        RelocKind::Oop => "Oop"@,
        RelocKind::KeyKlassOop => "KeyKlassOop"@,
        RelocKind::InlineCache => "InlineCache"@,
        RelocKind::RuntimeAddr => "RuntimeAddr"@,
        RelocKind::InternalWord => "InternalWord"@,
    }
}

/// How the listing writes an instruction.
pub open spec fn insn_text(i: Insn) -> Seq<char> {
    match i {
        Insn::Op(name, ops) => name + " "@ + "["@ + operands_text(ops) + "]"@,
        Insn::Raw(_) => "<raw>"@,
        Insn::B(l) => "b L"@ + dec_text(l.0 as nat),
        Insn::BCond(c, l) => "b."@ + cond_title(c) + " L"@ + dec_text(l.0 as nat),
        Insn::Cbz(r, l) => "cbz "@ + reg_text(r) + " L"@ + dec_text(l.0 as nat),
        Insn::Cbnz(r, l) => "cbnz "@ + reg_text(r) + " L"@ + dec_text(l.0 as nat),
        Insn::Tbz(r, bit, l) => "tbz "@ + reg_text(r) + " #"@ + dec_text(bit as nat) + " L"@ + dec_text(l.0 as nat),
        Insn::Tbnz(r, bit, l) => "tbnz "@ + reg_text(r) + " #"@ + dec_text(bit as nat) + " L"@ + dec_text(
            l.0 as nat,
        ),
        Insn::LdrLit(r, lit) => "ldr "@ + reg_text(r) + ", =lit"@ + dec_text(lit.0 as nat),
        Insn::Bl(kind) => "bl . ; "@ + reloc_text(kind) + " reloc"@,
    }
}

/// One listing line: offset, word, text.
pub open spec fn line_text(i: nat, insn: Insn) -> Seq<char> {
    hex_text(word_offset(i) as nat, 6) + "  "@ + hex_text(base_word(insn) as nat, 8) + "  "@ + insn_text(insn)
}

/// What finishing needs: not finished before, every label that was handed out bound, every branch
/// to such a label, and every literal load to a constant of the pool.
pub open spec fn finishable(c: Code) -> bool {
    &&& !c.finished
    &&& forall|l: u32| c.needs(l) ==> #[trigger] c.is_bound(l)
    &&& c.literals_ok()
}

/// The finished blob stands for the code.
pub open spec fn blob_of(c: Code, b: CodeBlob) -> bool {
    &&& b.code@ == image(c)
    &&& b.literal_off == word_offset(pool_word(c.insns.len()))
    &&& b.relocs@ == site_relocs(c.insns) + pool_relocs(c.pool, b.literal_off)
    &&& b.listing@.len() == c.insns.len()
    &&& forall|i: int| 0 <= i < c.insns.len() ==> (#[trigger] b.listing@[i])@ == line_text(i as nat, c.insns[i])
}

/// Backend-neutral emitter.
pub trait Assembler {
    /// The state, as the contracts see it.
    spec fn code(&self) -> Code;

    /// The implementor's own invariant.
    spec fn ok(&self) -> bool;

    /// Current write position, in bytes from the start of the blob.
    fn offset(&self) -> (r: u32)
        requires
            self.ok(),
        ensures
            r == self.code().offset(),
    ;

    /// Emits one instruction.
    fn emit(&mut self, mnemonic: &str, ops: &[Operand])
        requires
            old(self).ok(),
            encodable(mnemonic@, ops@),
        ensures
            final(self).ok(),
            final(self).code() == old(self).code().op(mnemonic@, ops@),
    ;

    /// Emits a word as it is.
    fn emit_u32(&mut self, word: u32)
        requires
            old(self).ok(),
        ensures
            final(self).ok(),
            final(self).code() == old(self).code().with(Insn::Raw(word)),
    ;

    /// Hands out a label.
    fn new_label(&mut self) -> (l: Label)
        requires
            old(self).ok(),
        ensures
            final(self).ok(),
            l == old(self).code().next_label(),
            final(self).code() == old(self).code().with_label(),
    ;

    /// Fixes `l` at the current offset.
    fn bind(&mut self, l: Label)
        requires
            old(self).ok(),
            l.0 < old(self).code().labels.len(),
        ensures
            final(self).ok(),
            final(self).code() == old(self).code().bound(l),
    ;

    /// Branches to `l`.
    fn b(&mut self, l: Label)
        requires
            old(self).ok(),
        ensures
            final(self).ok(),
            final(self).code() == old(self).code().with(Insn::B(l)),
    ;

    /// Branches to `l` on a condition.
    fn b_cond(&mut self, c: Cond, l: Label)
        requires
            old(self).ok(),
        ensures
            final(self).ok(),
            final(self).code() == old(self).code().with(Insn::BCond(c, l)),
    ;

    /// Branches to `l` where the register is zero.
    fn cbz(&mut self, r: Reg, l: Label)
        requires
            old(self).ok(),
            r.class is X || r.class is W,
        ensures
            final(self).ok(),
            final(self).code() == old(self).code().with(Insn::Cbz(r, l)),
    ;

    /// Branches to `l` where the register is not zero.
    fn cbnz(&mut self, r: Reg, l: Label)
        requires
            old(self).ok(),
            r.class is X || r.class is W,
        ensures
            final(self).ok(),
            final(self).code() == old(self).code().with(Insn::Cbnz(r, l)),
    ;

    /// Branches to `l` where the bit is zero.
    fn tbz(&mut self, r: Reg, bit: u8, l: Label)
        requires
            old(self).ok(),
            bit < 64,
        ensures
            final(self).ok(),
            final(self).code() == old(self).code().with(Insn::Tbz(r, bit, l)),
    ;

    /// Branches to `l` where the bit is one.
    fn tbnz(&mut self, r: Reg, bit: u8, l: Label)
        requires
            old(self).ok(),
            bit < 64,
        ensures
            final(self).ok(),
            final(self).code() == old(self).code().with(Insn::Tbnz(r, bit, l)),
    ;

    /// Interns a pool constant. Constants are shared only where value and kind agree.
    fn literal_u64(&mut self, v: u64, kind: Option<RelocKind>) -> (id: LiteralId)
        requires
            old(self).ok(),
        ensures
            final(self).ok(),
            id == old(self).code().literal_id(v, kind),
            final(self).code() == old(self).code().with_literal(v, kind),
    ;

    /// Loads a pool constant.
    fn ldr_literal(&mut self, dst: Reg, lit: LiteralId)
        requires
            old(self).ok(),
            dst.class is X,
        ensures
            final(self).ok(),
            final(self).code() == old(self).code().with(Insn::LdrLit(dst, lit)),
    ;

    /// Emits a call of itself, to be patched, and records its relocation. Returns its offset.
    fn bl_patchable(&mut self, kind: RelocKind) -> (off: u32)
        requires
            old(self).ok(),
        ensures
            final(self).ok(),
            off == old(self).code().offset(),
            final(self).code() == old(self).code().with(Insn::Bl(kind)),
    ;

    /// Calls the absolute address in a pool constant.
    fn call_far(&mut self, target: LiteralId)
        requires
            old(self).ok(),
        ensures
            final(self).ok(),
            final(self).code() == old(self).code().far_call(target),
    ;

    /// Resolves every branch and literal load, appends the pool and hands over the blob. Every label
    /// that was handed out is bound by now.
    fn finish(&mut self) -> (b: CodeBlob)
        requires
            old(self).ok(),
            finishable(old(self).code()),
        ensures
            final(self).ok(),
            final(self).code() == (Code { insns: Seq::empty(), labels: Seq::empty(), finished: true, ..old(self).code() }),
            blob_of(old(self).code(), b),
    ;
}

// ── Operand helpers ─────────────────────────────────────────────────────

/// The register `xN`.
pub open spec fn spec_xr(n: u8) -> Reg {
    Reg { class: RegClass::X, num: n, is_sp: false }
}

/// The operand `xN`.
pub open spec fn spec_x(n: u8) -> Operand {
    Operand::Reg(spec_xr(n))
}

/// The operand `xN`.
#[verifier::when_used_as_spec(spec_x)]
pub fn x(n: u8) -> (r: Operand)
    ensures
        r == spec_x(n),
{
    Operand::Reg(Reg { class: RegClass::X, num: n, is_sp: false })
}

/// The operand `wN`.
pub open spec fn spec_w(n: u8) -> Operand {
    Operand::Reg(Reg { class: RegClass::W, num: n, is_sp: false })
}

/// The operand `wN`.
#[verifier::when_used_as_spec(spec_w)]
pub fn w(n: u8) -> (r: Operand)
    ensures
        r == spec_w(n),
{
    Operand::Reg(Reg { class: RegClass::W, num: n, is_sp: false })
}

/// The operand `dN`.
pub open spec fn spec_d(n: u8) -> Operand {
    Operand::Reg(Reg { class: RegClass::D, num: n, is_sp: false })
}

/// A double-precision register.
#[verifier::when_used_as_spec(spec_d)]
pub fn d(n: u8) -> (r: Operand)
    ensures
        r == spec_d(n),
{
    Operand::Reg(Reg { class: RegClass::D, num: n, is_sp: false })
}

/// The operand `qN`.
pub open spec fn spec_q(n: u8) -> Operand {
    Operand::Reg(Reg { class: RegClass::Q, num: n, is_sp: false })
}

/// A 128-bit vector register; `d(n)` is its low half.
#[verifier::when_used_as_spec(spec_q)]
pub fn q(n: u8) -> (r: Operand)
    ensures
        r == spec_q(n),
{
    Operand::Reg(Reg { class: RegClass::Q, num: n, is_sp: false })
}

/// The operand `vN.2d`.
pub open spec fn spec_v2d(n: u8) -> Operand {
    Operand::VReg { num: n, arr: Arr::D2 }
}

/// Two doubles.
#[verifier::when_used_as_spec(spec_v2d)]
pub fn v2d(n: u8) -> (r: Operand)
    ensures
        r == spec_v2d(n),
{
    Operand::VReg { num: n, arr: Arr::D2 }
}

/// The operand `vN.4s`.
pub open spec fn spec_v4s(n: u8) -> Operand {
    Operand::VReg { num: n, arr: Arr::S4 }
}

/// Four 32-bit lanes.
#[verifier::when_used_as_spec(spec_v4s)]
pub fn v4s(n: u8) -> (r: Operand)
    ensures
        r == spec_v4s(n),
{
    Operand::VReg { num: n, arr: Arr::S4 }
}

/// The operand `vN.d[lane]`.
pub open spec fn spec_vd_lane(n: u8, lane: u8) -> Operand {
    Operand::VElem { num: n, esize: ElemSize::D, index: lane }
}

/// One double lane.
#[verifier::when_used_as_spec(spec_vd_lane)]
pub fn vd_lane(n: u8, lane: u8) -> (r: Operand)
    ensures
        r == spec_vd_lane(n, lane),
{
    Operand::VElem { num: n, esize: ElemSize::D, index: lane }
}

/// The stack pointer.
pub open spec fn spec_sp() -> Operand {
    Operand::Reg(Reg { class: RegClass::X, num: 31, is_sp: true })
}

/// The stack pointer, as an operand of arithmetic and moves.
#[verifier::when_used_as_spec(spec_sp)]
pub fn sp() -> (r: Operand)
    ensures
        r == spec_sp(),
{
    Operand::Reg(Reg { class: RegClass::X, num: 31, is_sp: true })
}

/// The register `xN`, not wrapped in an operand.
#[verifier::when_used_as_spec(spec_xr)]
pub fn xr(n: u8) -> (r: Reg)
    ensures
        r == spec_xr(n),
{
    Reg { class: RegClass::X, num: n, is_sp: false }
}

/// The operand `#v`.
pub open spec fn spec_imm(v: i64) -> Operand {
    Operand::Imm(v)
}

/// An immediate.
#[verifier::when_used_as_spec(spec_imm)]
pub fn imm(v: i64) -> (r: Operand)
    ensures
        r == spec_imm(v),
{
    Operand::Imm(v)
}

/// The base of a memory operand; number 31 is always the stack pointer there.
pub open spec fn spec_mem_base(n: u8) -> Reg {
    Reg { class: RegClass::X, num: n, is_sp: n == 31 }
}

fn mem_base(n: u8) -> (r: Reg)
    ensures
        r == spec_mem_base(n),
{
    Reg { class: RegClass::X, num: n, is_sp: n == 31 }
}

/// The operand `[xN, #off]`.
pub open spec fn spec_mem(base: u8, off: i64) -> Operand {
    Operand::Mem(Mem { base: spec_mem_base(base), addr: Addr::Offset(off) })
}

/// `[xN, #off]`.
#[verifier::when_used_as_spec(spec_mem)]
pub fn mem(base: u8, off: i64) -> (r: Operand)
    ensures
        r == spec_mem(base, off),
{
    Operand::Mem(Mem { base: mem_base(base), addr: Addr::Offset(off) })
}

/// The operand `[xN, #off]!`.
pub open spec fn spec_mem_pre(base: u8, off: i64) -> Operand {
    Operand::Mem(Mem { base: spec_mem_base(base), addr: Addr::PreIndex(off) })
}

/// `[xN, #off]!`, with writeback before the access.
#[verifier::when_used_as_spec(spec_mem_pre)]
pub fn mem_pre(base: u8, off: i64) -> (r: Operand)
    ensures
        r == spec_mem_pre(base, off),
{
    Operand::Mem(Mem { base: mem_base(base), addr: Addr::PreIndex(off) })
}

/// The operand `[xN], #off`.
pub open spec fn spec_mem_post(base: u8, off: i64) -> Operand {
    Operand::Mem(Mem { base: spec_mem_base(base), addr: Addr::PostIndex(off) })
}

/// `[xN], #off`, with writeback after the access.
#[verifier::when_used_as_spec(spec_mem_post)]
pub fn mem_post(base: u8, off: i64) -> (r: Operand)
    ensures
        r == spec_mem_post(base, off),
{
    Operand::Mem(Mem { base: mem_base(base), addr: Addr::PostIndex(off) })
}

// ── Laws ────────────────────────────────────────────────────────────────

pub(crate) proof fn lemma_wrap_sub(a: int, b: int)
    ensures
        wrap(a).wrapping_sub(wrap(b)) == wrap(a - b),
{
    vstd::arithmetic::div_mod::lemma_sub_mod_noop(a, b, 0x1_0000_0000);
    let d = a % 0x1_0000_0000 - b % 0x1_0000_0000;
    assert(d % 0x1_0000_0000 == if d < 0 { d + 0x1_0000_0000 } else { d });
}

pub(crate) proof fn lemma_wrap_plus(a: int, b: int)
    ensures
        wrap(a).wrapping_add(wrap(b)) == wrap(a + b),
{
    vstd::arithmetic::div_mod::lemma_add_mod_noop(a, b, 0x1_0000_0000);
    let d = a % 0x1_0000_0000 + b % 0x1_0000_0000;
    assert(d % 0x1_0000_0000 == if d >= 0x1_0000_0000 { d - 0x1_0000_0000 } else { d });
}

/// Only a patchable call adds a call site.
pub(crate) proof fn lemma_call_sites(c: Code, i: Insn)
    ensures
        c.with(i).sites() == match i {
            Insn::Bl(kind) => c.sites().push(Reloc { offset: c.offset(), kind }),
            _ => c.sites(),
        },
{
    reveal(Code::sites);
    assert(c.with(i).insns.drop_last() =~= c.insns);
}

pub(crate) proof fn lemma_open_plain(c: Code, i: Insn)
    requires
        insn_label(i) is None,
    ensures
        c.with(i).open_labels() == c.open_labels(),
        !(i is Bl) ==> c.with(i).sites() == c.sites(),
{
    lemma_call_sites(c, i);
    reveal(Code::open_labels);
    let n = c.with(i);
    assert forall|l: u32| n.open_labels().contains(l) == c.open_labels().contains(l) by {
        lemma_refers(c, i, l);
    }
    assert(n.open_labels() =~= c.open_labels());
}

proof fn lemma_refers(c: Code, i: Insn, l: u32)
    ensures
        c.with(i).refers(l) == (c.refers(l) || insn_label(i) == Some(Label(l))),
{
    let n = c.with(i);
    if c.refers(l) {
        let k = choose|k: int| 0 <= k < c.insns.len() && #[trigger] insn_label(c.insns[k]) == Some(Label(l));
        assert(n.insns[k] == c.insns[k]);
        assert(insn_label(n.insns[k]) == Some(Label(l)));
    }
    if insn_label(i) == Some(Label(l)) {
        assert(n.insns[c.insns.len() as int] == i);
        assert(insn_label(n.insns[c.insns.len() as int]) == Some(Label(l)));
    }
    if n.refers(l) {
        let k = choose|k: int| 0 <= k < n.insns.len() && #[trigger] insn_label(n.insns[k]) == Some(Label(l));
        if k < c.insns.len() {
            assert(n.insns[k] == c.insns[k]);
            assert(insn_label(c.insns[k]) == Some(Label(l)));
        }
    }
}

pub(crate) proof fn lemma_open_branch(c: Code, i: Insn, l: Label)
    requires
        insn_label(i) == Some(l),
    ensures
        c.with(i).open_labels().subset_of(c.open_labels().insert(l.0)),
        c.with(i).sites() == c.sites(),
{
    lemma_call_sites(c, i);
    reveal(Code::open_labels);
    let n = c.with(i);
    assert forall|k: u32| n.open_labels().contains(k) implies c.open_labels().insert(l.0).contains(k) by {
        lemma_refers(c, i, k);
    }
}

pub(crate) proof fn lemma_open_new(c: Code)
    ensures
        c.with_label().open_labels().subset_of(c.open_labels().insert(c.next_label().0)),
        c.with_label().sites() == c.sites(),
{
    reveal(Code::sites);
    reveal(Code::open_labels);
    let n = c.with_label();
    assert forall|l: u32| n.refers(l) == c.refers(l) by {}
    assert forall|l: u32| n.open_labels().contains(l) implies c.open_labels().insert(c.next_label().0).contains(l) by {
        if l < c.labels.len() {
            assert(n.labels[l as int] == c.labels[l as int]);
        }
    }
}

pub(crate) proof fn lemma_open_bound(c: Code, l: Label)
    requires
        l.0 < c.labels.len(),
    ensures
        c.bound(l).open_labels() == c.open_labels().remove(l.0),
        c.bound(l).sites() == c.sites(),
{
    reveal(Code::sites);
    reveal(Code::open_labels);
    let n = c.bound(l);
    assert forall|k: u32| n.refers(k) == c.refers(k) by {}
    assert(n.open_labels() =~= c.open_labels().remove(l.0));
}

/// Reads a branch word's 26-bit displacement back, in words.
pub open spec fn displacement26(w: u32) -> int {
    let f = w & 0x03FF_FFFF;
    if f < 0x0200_0000 {
        f as int
    } else {
        f - 0x0400_0000
    }
}

/// Reads a conditional branch's, compare-and-branch's or literal load's 19-bit displacement back.
pub open spec fn displacement19(w: u32) -> int {
    let f = (w >> 5) & 0x7FFFF;
    if f < 0x40000 {
        f as int
    } else {
        f - 0x80000
    }
}

/// Reads a test-bit-and-branch's 14-bit displacement back.
pub open spec fn displacement14(w: u32) -> int {
    let f = (w >> 5) & 0x3FFF;
    if f < 0x2000 {
        f as int
    } else {
        f - 0x4000
    }
}

/// A finished branch reaches its label: within the reach of its form, the displacement that the
/// word encodes is the distance from the instruction to the label.
pub proof fn law_branch_reaches_label(c: Code, i: int)
    requires
        0 <= i < c.insns.len(),
        insn_label(c.insns[i]) is Some,
        (c.insns[i] matches Insn::Cbz(r, _) ==> r.num < 32),
        (c.insns[i] matches Insn::Cbnz(r, _) ==> r.num < 32),
        (c.insns[i] matches Insn::Tbz(r, bit, _) ==> r.num < 32 && bit < 64),
        (c.insns[i] matches Insn::Tbnz(r, bit, _) ==> r.num < 32 && bit < 64),
    ensures
        ({
            let l = insn_label(c.insns[i])->0;
            let delta = c.labels[l.0 as int]->0 - i;
            let w = final_word(c, i);
            match c.insns[i] {
                Insn::B(_) => -0x0200_0000 <= delta < 0x0200_0000 ==> displacement26(w) == delta,
                Insn::Tbz(_, _, _) => -0x2000 <= delta < 0x2000 ==> displacement14(w) == delta,
                Insn::Tbnz(_, _, _) => -0x2000 <= delta < 0x2000 ==> displacement14(w) == delta,
                _ => -0x40000 <= delta < 0x40000 ==> displacement19(w) == delta,
            }
        }),
{
    let insn = c.insns[i];
    let l = insn_label(insn)->0;
    let delta = c.labels[l.0 as int]->0 - i;
    let u = wrap(delta);
    match insn {
        Insn::B(_) => {
            assert((0x1400_0000u32 | (u & 0x03FF_FFFF)) & 0x03FF_FFFF == u & 0x03FF_FFFF) by (bit_vector);
            if -0x0200_0000 <= delta < 0x0200_0000 {
                lemma_low26(u);
            }
        },
        Insn::BCond(cc, _) => {
            lemma_field19(u, 0x5400_0000u32 | cond_code(cc));
            let k = cond_code(cc);
            assert((0x5400_0000u32 | k) & 0x00FF_FFE0 == 0) by (bit_vector)
                requires
                    k < 32,
            ;
        },
        Insn::Cbz(r, _) => {
            lemma_cbz_clear(r, false);
            lemma_field19(u, cbz_word(r, false));
        },
        Insn::Cbnz(r, _) => {
            lemma_cbz_clear(r, true);
            lemma_field19(u, cbz_word(r, true));
        },
        Insn::Tbz(r, bit, _) => {
            lemma_tbz_clear(r, bit, false);
            lemma_field14(u, tbz_word(r, bit, false));
        },
        Insn::Tbnz(r, bit, _) => {
            lemma_tbz_clear(r, bit, true);
            lemma_field14(u, tbz_word(r, bit, true));
        },
        _ => {},
    }
}

/// A finished literal load reaches its pool word.
pub proof fn law_load_reaches_literal(c: Code, i: int)
    requires
        0 <= i < c.insns.len(),
        c.insns[i] matches Insn::LdrLit(r, _) && r.num < 32,
    ensures
        c.insns[i] matches Insn::LdrLit(_, lit) && ({
            let delta = pool_word(c.insns.len()) + 2 * lit.0 - i;
            -0x40000 <= delta < 0x40000 ==> displacement19(final_word(c, i)) == delta
        }),
{
    let lit = c.insns[i]->LdrLit_1;
    let r = c.insns[i]->LdrLit_0;
    let n = r.num as u32;
    let u = wrap(pool_word(c.insns.len()) + 2 * lit.0 - i);
    assert((0x5800_0000u32 | n) & 0x00FF_FFE0 == 0) by (bit_vector)
        requires
            n < 32,
    ;
    lemma_field19(u, 0x5800_0000u32 | n);
}

proof fn lemma_low26(u: u32)
    ensures
        u < 0x0200_0000 ==> u & 0x03FF_FFFF == u,
        u >= 0xFE00_0000 ==> u & 0x03FF_FFFF == u - 0xFC00_0000,
{
    assert((u < 0x0200_0000 ==> u & 0x03FF_FFFF == u) && (u >= 0xFE00_0000 ==> u & 0x03FF_FFFF == u - 0xFC00_0000))
        by (bit_vector);
}

proof fn lemma_field19(u: u32, base: u32)
    ensures
        base & 0x00FF_FFE0 == 0 ==> {
            let f = ((base | ((u & 0x7FFFF) << 5)) >> 5) & 0x7FFFF;
            &&& (u < 0x40000 ==> f == u)
            &&& (u >= 0xFFFC_0000 ==> f == u - 0xFFF8_0000)
        },
{
    assert(base & 0x00FF_FFE0 == 0 ==> (((base | ((u & 0x7FFFF) << 5)) >> 5) & 0x7FFFF == u & 0x7FFFF)) by (
    bit_vector);
    assert((u < 0x40000 ==> u & 0x7FFFF == u) && (u >= 0xFFFC_0000 ==> u & 0x7FFFF == u - 0xFFF8_0000)) by (bit_vector);
}

proof fn lemma_field14(u: u32, base: u32)
    ensures
        base & 0x0007_FFE0 == 0 ==> {
            let f = ((base | ((u & 0x3FFF) << 5)) >> 5) & 0x3FFF;
            &&& (u < 0x2000 ==> f == u)
            &&& (u >= 0xFFFF_E000 ==> f == u - 0xFFFF_C000)
        },
{
    assert(base & 0x0007_FFE0 == 0 ==> (((base | ((u & 0x3FFF) << 5)) >> 5) & 0x3FFF == u & 0x3FFF)) by (bit_vector);
    assert((u < 0x2000 ==> u & 0x3FFF == u) && (u >= 0xFFFF_E000 ==> u & 0x3FFF == u - 0xFFFF_C000)) by (bit_vector);
}

proof fn lemma_cbz_clear(r: Reg, nz: bool)
    requires
        r.num < 32,
    ensures
        cbz_word(r, nz) & 0x00FF_FFE0 == 0,
{
    let n = r.num as u32;
    let sf = if r.class is X {
        1u32
    } else {
        0u32
    };
    let op = if nz {
        1u32
    } else {
        0u32
    };
    assert(((sf << 31) | 0x3400_0000 | (op << 24) | n) & 0x00FF_FFE0 == 0) by (bit_vector)
        requires
            sf <= 1,
            op <= 1,
            n < 32,
    ;
}

proof fn lemma_tbz_clear(r: Reg, bit: u8, nz: bool)
    requires
        r.num < 32,
        bit < 64,
    ensures
        tbz_word(r, bit, nz) & 0x0007_FFE0 == 0,
{
    let n = r.num as u32;
    let b5 = (bit >> 5) as u32;
    let b40 = (bit & 0x1F) as u32;
    let op = if nz {
        1u32
    } else {
        0u32
    };
    assert(bit >> 5 <= 1 && bit & 0x1F < 32) by (bit_vector)
        requires
            bit < 64,
    ;
    assert(((b5 << 31) | 0x3600_0000 | (op << 24) | (b40 << 19) | n) & 0x0007_FFE0 == 0) by (bit_vector)
        requires
            b5 <= 1,
            b40 < 32,
            op <= 1,
            n < 32,
    ;
}

/// Interning again yields the same handle and leaves the pool as it is.
pub proof fn law_literal_is_shared(c: Code, v: u64, kind: Option<RelocKind>)
    ensures
        c.with_literal(v, kind).literal_id(v, kind) == c.literal_id(v, kind),
        c.with_literal(v, kind).with_literal(v, kind) == c.with_literal(v, kind),
{
    let e = (v, kind);
    lemma_pool_index_bound(c.pool, e);
    if pool_index(c.pool, e) >= c.pool.len() {
        let p2 = c.pool.push(e);
        assert(p2.drop_last() =~= c.pool);
    }
}

pub(crate) proof fn lemma_pool_index_bound(pool: Seq<(u64, Option<RelocKind>)>, e: (u64, Option<RelocKind>))
    ensures
        pool_index(pool, e) <= pool.len(),
        pool_index(pool, e) < pool.len() ==> pool[pool_index(pool, e) as int] == e,
    decreases pool.len(),
{
    if pool.len() > 0 {
        lemma_pool_index_bound(pool.drop_last(), e);
    }
}

/// Constants share a pool word only where value and kind agree.
pub proof fn law_literals_differ(
    c: Code,
    v: u64,
    kind: Option<RelocKind>,
    v2: u64,
    kind2: Option<RelocKind>,
)
    requires
        v != v2 || kind != kind2,
    ensures
        ({
            let c1 = c.with_literal(v, kind);
            pool_index(c.pool, (v, kind)) != pool_index(c1.pool, (v2, kind2))
        }),
{
    let e = (v, kind);
    let e2 = (v2, kind2);
    let c1 = c.with_literal(v, kind);
    lemma_pool_index_bound(c.pool, e);
    lemma_pool_index_bound(c1.pool, e2);
    law_literal_is_shared(c, v, kind);
    lemma_pool_index_bound(c1.pool, e);
}


/// The relocations of patchable call sites point at call sites, in code order and before the pool;
/// those of pool words point at the words that carry a kind, in pool order, from the pool's start on
/// and inside the code.
pub proof fn law_relocations_in_their_places(c: Code, b: CodeBlob)
    requires
        blob_of(c, b),
        4 * pool_word(c.insns.len()) + 8 * c.pool.len() <= u32::MAX,
    ensures
        forall|i: int|
            0 <= i < site_relocs(c.insns).len() ==> {
                let r = #[trigger] b.relocs@[i];
                &&& r.offset < b.literal_off
                &&& r.offset % 4 == 0
                &&& c.insns[r.offset as int / 4] == Insn::Bl(r.kind)
            },
        forall|i: int|
            site_relocs(c.insns).len() <= i < b.relocs@.len() ==> {
                let r = #[trigger] b.relocs@[i];
                &&& b.literal_off <= r.offset
                &&& r.offset + 8 <= b.code@.len()
                &&& (r.offset - b.literal_off) % 8 == 0
                &&& c.pool[(r.offset - b.literal_off) / 8].1 == Some(r.kind)
            },
        forall|i: int, k: int| 0 <= i < k < b.relocs@.len() ==> (#[trigger] b.relocs@[i]).offset < (#[trigger] b.relocs@[k]).offset,
{
    lemma_site_relocs(c.insns);
    lemma_pool_relocs(c.pool, b.literal_off);
    let n = site_relocs(c.insns).len() as int;
    let p = pool_relocs(c.pool, b.literal_off);
    assert(b.code@.len() == 4 * pool_word(c.insns.len()) + 8 * c.pool.len());
    assert forall|i: int| 0 <= i < n implies #[trigger] b.relocs@[i] == site_relocs(c.insns)[i] by {}
    assert forall|i: int| n <= i < b.relocs@.len() implies #[trigger] b.relocs@[i] == p[i - n] by {}
}

pub(crate) proof fn lemma_site_relocs(insns: Seq<Insn>)
    requires
        4 * insns.len() <= u32::MAX,
    ensures
        forall|i: int|
            0 <= i < site_relocs(insns).len() ==> {
                let r = #[trigger] site_relocs(insns)[i];
                &&& r.offset < 4 * insns.len()
                &&& r.offset % 4 == 0
                &&& insns[r.offset as int / 4] == Insn::Bl(r.kind)
            },
        forall|i: int, k: int|
            0 <= i < k < site_relocs(insns).len() ==> (#[trigger] site_relocs(insns)[i]).offset < (
            #[trigger] site_relocs(insns)[k]).offset,
    decreases insns.len(),
{
    if insns.len() > 0 {
        lemma_site_relocs(insns.drop_last());
    }
}

proof fn lemma_pool_relocs(pool: Seq<(u64, Option<RelocKind>)>, off: u32)
    requires
        off + 8 * pool.len() <= u32::MAX,
    ensures
        forall|i: int|
            0 <= i < pool_relocs(pool, off).len() ==> {
                let r = #[trigger] pool_relocs(pool, off)[i];
                &&& off <= r.offset
                &&& r.offset < off + 8 * pool.len()
                &&& (r.offset - off) % 8 == 0
                &&& pool[(r.offset - off) / 8].1 == Some(r.kind)
            },
        forall|i: int, k: int|
            0 <= i < k < pool_relocs(pool, off).len() ==> (#[trigger] pool_relocs(pool, off)[i]).offset < (
            #[trigger] pool_relocs(pool, off)[k]).offset,
    decreases pool.len(),
{
    if pool.len() > 0 {
        lemma_pool_relocs(pool.drop_last(), off);
    }
}

} // verus!
