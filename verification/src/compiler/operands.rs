//! Arithmetic on values wherever they live: in a register, in a slot of the frame, in a register that
//! mirrors a slot, or nowhere, as constants.
//!
//! The frame's slots are words of the machine's memory, below the frame pointer. An operand is
//! brought into a register, the sequence runs on registers, and the result is put into its home. An
//! operand that is no small integer sends the operation to its failure label.
use vstd::prelude::*;
#[allow(unused_imports)]
use vstd::arithmetic::power2::*;
#[allow(unused_imports)]
use crate::compiler::a64::{lemma_mnemonics, Cond, Operand, Reg, Shift};
#[allow(unused_imports)]
use crate::compiler::assembler::{spec_imm, spec_mem, spec_x, spec_xr, Code, Insn, Label};
#[allow(unused_imports)]
use crate::compiler::emitter::{
    brk_word, dest, dest_direct, group16, mirrors, poison, shadow_reg, spill_off, tagged, Plan, St,
    R1A_POISON_BRK,
};
#[allow(unused_imports)]
use crate::compiler::ir::{BlockId, SmiOp, VReg};
#[allow(unused_imports)]
use crate::compiler::lower::simple_name;
#[allow(unused_imports)]
use crate::compiler::machine::{
    added, behind, difference, division_length, floored, floored_rest, inserted, is_division, is_shift, is_signed, is_smi,
    lemma_division_run, lemma_gone, lemma_next, lemma_product, lemma_quarter, lemma_resume, lemma_shift_run, lemma_tag,
    lemma_tag_check, lemma_word, operands, run, same_but, shifted_right, signed, smi, tested, word, written, Cpu, Ctl,
};
#[allow(unused_imports)]
use crate::compiler::regalloc::{Assignment, SpillSlot};

verus! {

// ── Where values live ───────────────────────────────────────────────────

/// The registers that every sequence may overwrite.
pub open spec fn scratch(r: u8) -> bool {
    r == 16 || r == 17 || r == 19 || r == 20
}

/// A register that a value may live in: no sequence overwrites it, and no slot is mirrored in it.
pub open spec fn lodging(p: Plan, r: u8) -> bool {
    r < 29 && !scratch(r) && !p.r1a_free@.contains(r)
}

/// A value has a home, and its registers are fit to live in.
pub open spec fn lodged(p: Plan, v: VReg) -> bool {
    &&& p.has(v)
    &&& p.resident@[v.0 as int] matches Some(r) ==> lodging(p, r)
    &&& p.home(v) matches Assignment::Reg(r) ==> lodging(p, r)
}

/// The address of a slot.
pub open spec fn slot_at(m: Cpu, slot: SpillSlot) -> int {
    m.x[29] + spill_off(slot)
}

/// The plan is in order, the frame lies below the frame pointer, and what is mirrored agrees.
pub open spec fn ready(p: Plan, s: St, m: Cpu) -> bool {
    &&& p.ok()
    &&& forall|r: u8| #[trigger] p.r1a_free@.contains(r) ==> r < 29 && !scratch(r)
    &&& m.x.len() == 32
    &&& m.x[29] >= 8 * p.frame_slots
    &&& s.shadow.len() == p.frame_slots
    &&& s.of_reg.len() == 32
    &&& mirrors(p, s.shadow, s.of_reg)
}

/// Whether a value is the word `w`, where it is read as an operand: in its resident register, in its
/// register, as a constant, or in its slot, with the mirror of the slot where it has one.
pub open spec fn holds(p: Plan, s: St, m: Cpu, v: VReg, w: u64) -> bool {
    match p.resident@[v.0 as int] {
        Some(r) => m.x[r as int] == w,
        None => match p.home(v) {
            Assignment::Reg(r) => m.x[r as int] == w,
            Assignment::Spill(slot) => match p.const_smi@[v.0 as int] {
                Some(c) => w == tagged(c),
                None => match p.const_pool@[v.0 as int] {
                    Some(k) => w == s.code.pool[p.literal_ids@[k as int].0 as int].0,
                    None => {
                        &&& (m.mem)(slot_at(m, slot)) == w
                        &&& p.r1a_mode != 0 ==> (s.shadow[slot.0 as int] matches Some(r) ==> m.x[r as int] == w)
                    },
                },
            },
        },
    }
}

/// Whether a result is the word `w`, wherever it is kept: in its resident register, in its register,
/// and in its slot unless it is a constant or its slot is stored only on demand.
pub open spec fn settled(p: Plan, m: Cpu, v: VReg, w: u64) -> bool {
    &&& p.resident@[v.0 as int] matches Some(r) ==> m.x[r as int] == w
    &&& match p.home(v) {
        Assignment::Reg(r) => p.resident@[v.0 as int] is None ==> m.x[r as int] == w,
        Assignment::Spill(slot) => p.const_smi@[v.0 as int] is None && p.const_pool@[v.0 as int] is None
            && !p.s2_smi@[v.0 as int] ==> (m.mem)(slot_at(m, slot)) == w,
    }
}

/// Whether the machine is as it was, but for the scratch registers, the spare ones, the flags, and
/// where the value `v` is kept.
pub open spec fn kept(p: Plan, m: Cpu, n: Cpu, v: VReg) -> bool {
    &&& n.x.len() == m.x.len()
    &&& forall|r: u8|
        r < 32 && !scratch(r) && !p.r1a_free@.contains(r) && p.resident@[v.0 as int] != Some(r) && p.home(v)
            != Assignment::Reg(r) ==> #[trigger] n.x[r as int] == m.x[r as int]
    &&& match p.home(v) {
        Assignment::Reg(_) => n.mem == m.mem,
        Assignment::Spill(slot) => forall|a: int|
            a <= slot_at(m, slot) - 8 || slot_at(m, slot) + 8 <= a ==> #[trigger] (n.mem)(a) == (m.mem)(a),
    }
}

/// As [`kept`], without a value that changes.
pub open spec fn quiet(p: Plan, m: Cpu, n: Cpu) -> bool {
    &&& n.x.len() == m.x.len()
    &&& n.mem == m.mem
    &&& forall|r: u8| r < 32 && !scratch(r) && !p.r1a_free@.contains(r) ==> #[trigger] n.x[r as int] == m.x[r as int]
}

pub(crate) proof fn lemma_kept(p: Plan, m: Cpu, n: Cpu, e: Cpu, v: VReg)
    requires
        p.ok(),
        forall|r: u8| #[trigger] p.r1a_free@.contains(r) ==> r < 29 && !scratch(r),
        lodged(p, v),
        m.x.len() == 32,
        kept(p, m, n, v),
        kept(p, n, e, v),
    ensures
        kept(p, m, e, v),
{
    let r29: u8 = 29;
    assert(n.x[r29 as int] == m.x[r29 as int]);
    assert forall|r: u8|
        r < 32 && !scratch(r) && !p.r1a_free@.contains(r) && p.resident@[v.0 as int] != Some(r) && p.home(v)
            != Assignment::Reg(r) implies #[trigger] e.x[r as int] == m.x[r as int] by {
        assert(n.x[r as int] == m.x[r as int]);
    }
    match p.home(v) {
        Assignment::Reg(_) => {},
        Assignment::Spill(slot) => {
            assert forall|a: int|
                a <= slot_at(m, slot) - 8 || slot_at(m, slot) + 8 <= a implies #[trigger] (e.mem)(a) == (m.mem)(a) by {
                assert((n.mem)(a) == (m.mem)(a));
            }
        },
    }
}

// ── Code that grows ─────────────────────────────────────────────────────

/// Whether code `b` is code `a` with more behind it: no instruction and no label of `a` has changed.
#[verifier::opaque]
pub open spec fn grows(a: Code, b: Code) -> bool {
    &&& a.insns.len() <= b.insns.len()
    &&& forall|k: int| 0 <= k < a.insns.len() ==> #[trigger] b.insns[k] == a.insns[k]
    &&& a.labels.len() <= b.labels.len()
    &&& forall|j: int| 0 <= j < a.labels.len() ==> #[trigger] b.labels[j] == a.labels[j]
    &&& b.pool == a.pool
}

pub(crate) proof fn lemma_grows(a: Code, b: Code, c: Code)
    requires
        grows(a, b),
        grows(b, c),
    ensures
        grows(a, c),
{
    reveal(grows);
    assert forall|k: int| 0 <= k < a.insns.len() implies #[trigger] c.insns[k] == a.insns[k] by {
        assert(b.insns[k] == a.insns[k]);
    }
    assert forall|j: int| 0 <= j < a.labels.len() implies #[trigger] c.labels[j] == a.labels[j] by {
        assert(b.labels[j] == a.labels[j]);
    }
}

pub(crate) proof fn lemma_length(a: Code, b: Code)
    requires
        grows(a, b),
    ensures
        a.insns.len() <= b.insns.len(),
        a.labels.len() <= b.labels.len(),
        b.pool == a.pool,
{
    reveal(grows);
}

/// The instruction that was appended stands in the grown code.
pub(crate) proof fn lemma_at(a: Code, i: Insn, c: Code)
    requires
        grows(a.with(i), c),
    ensures
        grows(a, c),
        a.insns.len() < c.insns.len(),
        c.insns[a.insns.len() as int] == i,
{
    reveal(grows);
    let b = a.with(i);
    assert(b.insns[a.insns.len() as int] == i);
    assert(c.insns[a.insns.len() as int] == b.insns[a.insns.len() as int]);
    assert forall|k: int| 0 <= k < a.insns.len() implies #[trigger] c.insns[k] == a.insns[k] by {
        assert(b.insns[k] == a.insns[k]);
    }
}

pub(crate) proof fn lemma_grows_itself(a: Code)
    ensures
        grows(a, a),
{
    reveal(grows);
}

pub(crate) proof fn lemma_grows_by(a: Code, i: Insn)
    ensures
        grows(a, a.with(i)),
{
    reveal(grows);
}

// ── Slots ───────────────────────────────────────────────────────────────

/// The machine before a slot is accessed: the address of a deep slot is in a scratch register.
pub open spec fn addressed(m: Cpu, slot: SpillSlot) -> Cpu {
    if spill_off(slot) >= -256 {
        m
    } else {
        Cpu { x: m.x.update(19, word(slot_at(m, slot))), ..m }
    }
}

/// The machine after a slot is loaded.
pub open spec fn loaded(m: Cpu, slot: SpillSlot, r: u8) -> Cpu {
    let a = addressed(m, slot);
    Cpu { x: a.x.update(r as int, (m.mem)(slot_at(m, slot))), ..a }
}

/// The machine after a slot is stored.
pub open spec fn stored(m: Cpu, slot: SpillSlot, r: u8) -> Cpu {
    let a = addressed(m, slot);
    Cpu { mem: written(m.mem, slot_at(m, slot), m.x[r as int]), ..a }
}

/// The word of the address of a deep slot.
pub(crate) proof fn lemma_slot_at(m: Cpu, slot: SpillSlot)
    requires
        slot.0 < 511,
        m.x[29] >= 8 * (slot.0 + 1),
    ensures
        spill_off(slot) == -8 * (slot.0 + 1),
        word(signed(m.x[29]) - signed(word(-spill_off(slot)))) == slot_at(m, slot),
        word(slot_at(m, slot)) == slot_at(m, slot),
{
    lemma_word(-spill_off(slot));
}

pub(crate) proof fn lemma_grows_access(s: St, name: Seq<char>, r: Operand, slot: SpillSlot)
    ensures
        grows(s.code, s.spill_access(name, r, slot).code),
{
    reveal(grows);
}

pub(crate) proof fn lemma_access(c: Code, s: St, name: Seq<char>, r: u8, slot: SpillSlot, m: Cpu)
    requires
        grows(s.spill_access(name, spec_x(r), slot).code, c),
        name == "ldr"@ || name == "str"@,
        m.x.len() == 32,
        slot.0 < 511,
        m.x[29] >= 8 * (slot.0 + 1),
        r < 29,
        r != 19,
    ensures
        run(
            c,
            s.code.insns.len() as int,
            m,
            s.spill_access(name, spec_x(r), slot).code.insns.len() as int,
        ) == Ctl::At(
            if name == "ldr"@ {
                loaded(m, slot, r)
            } else {
                stored(m, slot, r)
            },
        ),
{
    lemma_mnemonics();
    lemma_slot_at(m, slot);
    let n = s.code.insns.len() as int;
    let off = spill_off(slot);
    if off >= -256 {
        lemma_at(s.code, Insn::Op(name, seq![spec_x(r), spec_mem(29, off)]), c);
        lemma_next(c, n, m, n);
    } else {
        let s1 = s.i3("sub"@, spec_x(19), spec_x(29), spec_imm((-off) as i64));
        lemma_at(s1.code, Insn::Op(name, seq![spec_x(r), spec_mem(19, 0)]), c);
        lemma_at(s.code, Insn::Op("sub"@, seq![spec_x(19), spec_x(29), spec_imm((-off) as i64)]), c);
        lemma_next(c, n, m, n);
        assert(run(c, n, m, n + 1) == Ctl::At(addressed(m, slot)));
        lemma_next(c, n, m, n + 1);
    }
}

// ── Constants ───────────────────────────────────────────────────────────

/// Groups of sixteen bits put a word together.
pub(crate) proof fn lemma_groups(v: u64)
    ensures
        v & 0xFFFF == (v >> 0) & 0xFFFF,
        inserted(v & 0xFFFF, (v >> 16) & 0xFFFF, 16) == v & 0xFFFF_FFFF,
        (v >> 16) & 0xFFFF == 0 ==> v & 0xFFFF_FFFF == v & 0xFFFF,
        inserted(v & 0xFFFF_FFFF, (v >> 32) & 0xFFFF, 32) == v & 0xFFFF_FFFF_FFFF,
        (v >> 32) & 0xFFFF == 0 ==> v & 0xFFFF_FFFF_FFFF == v & 0xFFFF_FFFF,
        inserted(v & 0xFFFF_FFFF_FFFF, (v >> 48) & 0xFFFF, 48) == v,
        (v >> 48) & 0xFFFF == 0 ==> v == v & 0xFFFF_FFFF_FFFF,
{
    assert(v & 0xFFFF == (v >> 0) & 0xFFFF && ((v & 0xFFFF) & !(0xFFFFu64 << 16)) | (((v >> 16) & 0xFFFF) << 16) == v
        & 0xFFFF_FFFF && ((v >> 16) & 0xFFFF == 0 ==> v & 0xFFFF_FFFF == v & 0xFFFF)) by (bit_vector);
    assert(((v & 0xFFFF_FFFF) & !(0xFFFFu64 << 32)) | (((v >> 32) & 0xFFFF) << 32) == v & 0xFFFF_FFFF_FFFF && ((v >> 32)
        & 0xFFFF == 0 ==> v & 0xFFFF_FFFF_FFFF == v & 0xFFFF_FFFF)) by (bit_vector);
    assert(((v & 0xFFFF_FFFF_FFFF) & !(0xFFFFu64 << 48)) | (((v >> 48) & 0xFFFF) << 48) == v && ((v >> 48) & 0xFFFF == 0
        ==> v == v & 0xFFFF_FFFF_FFFF)) by (bit_vector);
}

/// A group of sixteen bits as an operand.
pub(crate) proof fn lemma_group(v: u64, shift: u64)
    ensures
        group16(v, shift) as u64 == (v >> shift) & 0xFFFF,
        word(group16(v, shift) as int) == (v >> shift) & 0xFFFF,
        group16(v, shift) == 0 <==> (v >> shift) & 0xFFFF == 0,
        0 <= group16(v, shift) < 65536,
{
    let x = v >> shift;
    assert(x & 0xFFFF <= 0xFFFF) by (bit_vector);
}

pub(crate) proof fn lemma_grows_mov64(s: St, r: u8, v: u64)
    ensures
        grows(s.code, s.mov64(spec_xr(r), v).code),
{
    reveal(grows);
}

pub(crate) proof fn lemma_movk(c: Code, s: St, r: u8, g: i64, shift: u32, m: Cpu)
    requires
        grows(s.movk(spec_xr(r), g, shift).code, c),
        m.x.len() == 32,
        r < 29,
        0 <= g < 65536,
    ensures
        grows(s.code, c),
        run(c, s.code.insns.len() as int, m, s.movk(spec_xr(r), g, shift).code.insns.len() as int) == Ctl::At(
            if g != 0 {
                Cpu { x: m.x.update(r as int, inserted(m.x[r as int], g as u64, shift as u64)), ..m }
            } else {
                m
            },
        ),
{
    lemma_mnemonics();
    let n = s.code.insns.len() as int;
    if g != 0 {
        lemma_at(s.code, Insn::Op("movk"@, seq![spec_x(r), Operand::ImmShift(g, shift)]), c);
        lemma_next(c, n, m, n);
    }
}

pub(crate) proof fn lemma_mov64(c: Code, s: St, r: u8, v: u64, m: Cpu)
    requires
        grows(s.mov64(spec_xr(r), v).code, c),
        m.x.len() == 32,
        r < 29,
    ensures
        run(c, s.code.insns.len() as int, m, s.mov64(spec_xr(r), v).code.insns.len() as int) == Ctl::At(
            Cpu { x: m.x.update(r as int, v), ..m },
        ),
{
    lemma_mnemonics();
    lemma_group(v, 0);
    lemma_group(v, 16);
    lemma_group(v, 32);
    lemma_group(v, 48);
    lemma_groups(v);
    let n = s.code.insns.len() as int;
    let x = spec_xr(r);
    let s0 = s.i2("movz"@, spec_x(r), spec_imm(group16(v, 0)));
    let s1 = s0.movk(x, group16(v, 16), 16);
    let s2 = s1.movk(x, group16(v, 32), 32);
    let s3 = s2.movk(x, group16(v, 48), 48);
    let m0 = Cpu { x: m.x.update(r as int, v & 0xFFFF), ..m };
    let m1 = Cpu { x: m.x.update(r as int, v & 0xFFFF_FFFF), ..m };
    let m2 = Cpu { x: m.x.update(r as int, v & 0xFFFF_FFFF_FFFF), ..m };
    let m3 = Cpu { x: m.x.update(r as int, v), ..m };
    lemma_movk(c, s2, r, group16(v, 48), 48, m2);
    lemma_movk(c, s1, r, group16(v, 32), 32, m1);
    lemma_movk(c, s0, r, group16(v, 16), 16, m0);
    lemma_at(s.code, Insn::Op("movz"@, seq![spec_x(r), spec_imm(group16(v, 0))]), c);
    lemma_next(c, n, m, n);
    let n0 = s0.code.insns.len() as int;
    let n1 = s1.code.insns.len() as int;
    let n2 = s2.code.insns.len() as int;
    let n3 = s3.code.insns.len() as int;
    assert(run(c, n, m, n0) == Ctl::At(m0));
    assert(m1.x =~= m0.x.update(r as int, v & 0xFFFF_FFFF));
    assert(run(c, n0, m0, n1) == Ctl::At(m1));
    assert(m2.x =~= m1.x.update(r as int, v & 0xFFFF_FFFF_FFFF));
    assert(run(c, n1, m1, n2) == Ctl::At(m2));
    assert(m3.x =~= m2.x.update(r as int, v));
    assert(run(c, n2, m2, n3) == Ctl::At(m3));
    lemma_resume(c, n, m, n0, m0, n1);
    lemma_resume(c, n, m, n1, m1, n2);
    lemma_resume(c, n, m, n2, m2, n3);
}

// ── Mirrors ─────────────────────────────────────────────────────────────

/// Whether bringing an operand may change a register: the scratch register it is given, the one for
/// addresses, and a spare register that is not held as an operand.
pub open spec fn loose(p: Plan, s: St, sc: u8, r: u8) -> bool {
    r == sc || r == 19 || (p.r1a_free@.contains(r) && !s.hits.contains(r))
}

pub(crate) proof fn lemma_shadow_register(p: Plan, s: St, i: int)
    requires
        mirrors(p, s.shadow, s.of_reg),
        0 <= i < s.shadow.len(),
        s.shadow.len() <= 511,
    ensures
        s.shadow[i] matches Some(r) ==> p.r1a_free@.contains(r) && shadow_reg(p, SpillSlot(i as u16)) == Some(r),
{
    reveal(mirrors);
    let n = p.r1a_free@.len() as int;
    if s.shadow[i] is Some {
        assert(shadow_reg(p, SpillSlot(i as u16)) == Some(s.shadow[i]->0));
        let j = (i as u16) as int % n;
        assert(p.r1a_free@[j] == s.shadow[i]->0);
    }
}

pub(crate) proof fn lemma_grows_seed(s: St, p: Plan, slot: SpillSlot, from: Reg)
    ensures
        grows(s.code, s.seed(p, slot, from).code),
        s.seed(p, slot, from).code.labels == s.code.labels,
{
    reveal(grows);
}

/// A slot is mirrored: its spare register takes the value, unless that is declined, and the mirrors
/// of other slots are as they were, or gone.
pub(crate) proof fn lemma_seed(c: Code, s: St, p: Plan, slot: SpillSlot, f: u8, m: Cpu) -> (e: Cpu)
    requires
        ready(p, s, m),
        slot.0 < p.frame_slots,
        f < 29,
        grows(s.seed(p, slot, spec_xr(f)).code, c),
    ensures
        ({
            let t = s.seed(p, slot, spec_xr(f));
            &&& run(c, s.code.insns.len() as int, m, t.code.insns.len() as int) == Ctl::At(e)
            &&& ready(p, t, e)
            &&& e.mem == m.mem
            &&& t.hits == s.hits
            &&& t.pos == s.pos
            &&& t.code.pool == s.code.pool
            &&& forall|r: u8|
                r < 32 && !(p.r1a_free@.contains(r) && !s.hits.contains(r)) ==> #[trigger] e.x[r as int] == m.x[r as int]
            &&& forall|i: int|
                0 <= i < p.frame_slots ==> (#[trigger] t.shadow[i] matches Some(r) ==> (i == slot.0 && e.x[r as int]
                    == m.x[f as int]) || (s.shadow[i] == Some(r) && e.x[r as int] == m.x[r as int]))
        }),
{
    lemma_mnemonics();
    let n = s.code.insns.len() as int;
    let t = s.seed(p, slot, spec_xr(f));
    match shadow_reg(p, slot) {
        Some(sr) if !(s.hits.contains(sr) || s.in_sp) => {
            let j = slot.0 as int % p.r1a_free@.len() as int;
            assert(p.r1a_free@[j] == sr);
            assert(p.r1a_free@.contains(sr));
            let e = Cpu { x: m.x.update(sr as int, m.x[f as int]), ..m };
            if f != sr {
                lemma_at(s.code, Insn::Op("mov"@, seq![spec_x(sr), spec_x(f)]), c);
                lemma_next(c, n, m, n);
            } else {
                assert(e.x =~= m.x);
                assert(e == m);
            }
            assert(run(c, n, m, t.code.insns.len() as int) == Ctl::At(e));
            assert(mirrors(p, t.shadow, t.of_reg) && t.shadow.len() == s.shadow.len()) by {
                reveal(mirrors);
                assert(SpillSlot(slot.0 as int as u16) == slot);
            }
            assert forall|i: int| 0 <= i < p.frame_slots implies (#[trigger] t.shadow[i] matches Some(r) ==> (i == slot.0
                && e.x[r as int] == m.x[f as int]) || (s.shadow[i] == Some(r) && e.x[r as int] == m.x[r as int])) by {
                reveal(mirrors);
                if i != slot.0 && t.shadow[i] is Some {
                    let r = t.shadow[i]->0;
                    assert(t.of_reg[r as int] == Some(i as u16));
                    assert(t.of_reg[sr as int] == Some(slot.0));
                    assert(r != sr);
                    lemma_shadow_register(p, t, i);
                }
            }
            e
        },
        _ => {
            assert(t == s);
            m
        },
    }
}

// ── Operands ────────────────────────────────────────────────────────────

pub(crate) proof fn lemma_grows_serve(s: St, p: Plan, slot: SpillSlot, sr: u8, sc: u8)
    requires
        s.code.labels.len() < u32::MAX,
    ensures
        grows(s.code, s.serve(p, slot, sr, sc).code),
        s.serve(p, slot, sr, sc).code.labels.len() <= s.code.labels.len() + 1,
{
    reveal(grows);
}

/// A slot served from its mirror. A check that the slot agrees passes.
#[verifier::spinoff_prover]
pub(crate) proof fn lemma_serve(c: Code, s: St, p: Plan, slot: SpillSlot, sr: u8, sc: u8, m: Cpu) -> (e: Cpu)
    requires
        ready(p, s, m),
        slot.0 < p.frame_slots,
        sc == 16 || sc == 17,
        p.r1a_free@.contains(sr),
        m.x[sr as int] == (m.mem)(slot_at(m, slot)),
        s.code.labels.len() < u32::MAX,
        grows(s.serve(p, slot, sr, sc).code, c),
    ensures
        ({
            let t = s.serve(p, slot, sr, sc);
            &&& run(c, s.code.insns.len() as int, m, t.code.insns.len() as int) == Ctl::At(e)
            &&& e.mem == m.mem
            &&& e.x.len() == 32
            &&& forall|r: u8| r < 32 && r != sc && r != 19 ==> #[trigger] e.x[r as int] == m.x[r as int]
        }),
{
    lemma_mnemonics();
    let t = s.serve(p, slot, sr, sc);
    let n = s.code.insns.len() as int;
    if p.r1a_mode == 2 {
        let s1 = s.spill_access("ldr"@, spec_x(sc), slot);
        let s2 = s1.i2("cmp"@, spec_x(sc), spec_x(sr));
        let ok = s2.code.next_label();
        let s3 = s2.lab().bc(Cond::Eq, ok).raw(brk_word(R1A_POISON_BRK)).bind(ok);
        assert(t.code == s3.code);
        let k = s1.code.insns.len() as int;
        assert(s3.code.insns.len() == k + 3);
        assert(s3.code.insns[k] == Insn::Op("cmp"@, seq![spec_x(sc), spec_x(sr)]));
        assert(s3.code.insns[k + 1] == Insn::BCond(Cond::Eq, ok));
        assert(s3.code.labels[ok.0 as int] == Some((k + 3) as nat));
        assert(grows(s1.code, s3.code)) by {
            reveal(grows);
        }
        lemma_grows(s1.code, s3.code, c);
        assert(c.insns[k] == s3.code.insns[k] && c.insns[k + 1] == s3.code.insns[k + 1] && c.labels[ok.0 as int]
            == s3.code.labels[ok.0 as int] && ok.0 < c.labels.len()) by {
            reveal(grows);
        }
        lemma_access(c, s, "ldr"@, sc, slot, m);
        let e1 = loaded(m, slot, sc);
        let e = Cpu { f: difference(e1.x[sc as int], e1.x[sr as int]), ..e1 };
        assert(e1.x[sc as int] == e1.x[sr as int]);
        lemma_next(c, n, m, k);
        assert(run(c, n, m, k + 1) == Ctl::At(e));
        lemma_next(c, n, m, k + 1);
        assert(run(c, n, m, k + 2) == Ctl::To(ok, e));
        lemma_next(c, n, m, k + 2);
        assert(run(c, n, m, k + 3) == Ctl::At(e));
        e
    } else {
        m
    }
}

pub(crate) proof fn lemma_grows_resolve(s: St, p: Plan, v: VReg, sc: u8)
    requires
        s.code.labels.len() < u32::MAX,
    ensures
        grows(s.code, s.resolve(p, v, sc).1.code),
        s.resolve(p, v, sc).1.code.labels.len() <= s.code.labels.len() + 1,
        s.resolve(p, v, sc).1.pos == s.pos,
{
    lemma_grows_itself(s.code);
    match p.home(v) {
        Assignment::Reg(_) => {},
        Assignment::Spill(slot) => {
            if p.const_smi@[v.0 as int] is Some {
                lemma_grows_mov64(s, sc, tagged(p.const_smi@[v.0 as int]->0));
            } else if p.const_pool@[v.0 as int] is Some {
                lemma_grows_by(
                    s.code,
                    Insn::LdrLit(spec_xr(sc), p.literal_ids@[p.const_pool@[v.0 as int]->0 as int]),
                );
            } else {
                if s.shadow[slot.0 as int] is Some {
                    lemma_grows_serve(s, p, slot, s.shadow[slot.0 as int]->0, sc);
                }
                let s1 = s.spill_access("ldr"@, spec_x(sc), slot);
                lemma_grows_access(s, "ldr"@, spec_x(sc), slot);
                lemma_grows_seed(s1, p, slot, spec_xr(sc));
                lemma_grows(s.code, s1.code, s1.seed(p, slot, spec_xr(sc)).code);
            }
        },
    }
}

/// What an operand's register and the machine are after the operand was brought.
pub open spec fn brought(p: Plan, s: St, t: St, m: Cpu, e: Cpu, r: Reg, sc: u8, w: u64) -> bool {
    &&& ready(p, t, e)
    &&& e.mem == m.mem
    &&& t.pos == s.pos
    &&& t.code.pool == s.code.pool
    &&& forall|q: u8| r_kept(p, s, sc, q) ==> #[trigger] e.x[q as int] == m.x[q as int]
    &&& forall|q: u8| #[trigger] s.hits.contains(q) ==> t.hits.contains(q)
    &&& r == spec_xr(r.num)
    &&& r.num == sc || lodging(p, r.num) || (p.r1a_free@.contains(r.num) && t.hits.contains(r.num))
    &&& e.x[r.num as int] == w
}

pub open spec fn r_kept(p: Plan, s: St, sc: u8, q: u8) -> bool {
    q < 32 && !loose(p, s, sc, q)
}

/// An operand is brought into a register. What another value is stays as it was.
#[verifier::spinoff_prover]
pub(crate) proof fn lemma_resolve(c: Code, s: St, p: Plan, v: VReg, w: u64, sc: u8, m: Cpu, b: VReg, wb: u64) -> (e: Cpu)
    requires
        ready(p, s, m),
        sc == 16 || sc == 17,
        s.code.labels.len() < u32::MAX,
        lodged(p, v),
        holds(p, s, m, v, w),
        lodged(p, b),
        holds(p, s, m, b, wb),
        grows(s.resolve(p, v, sc).1.code, c),
    ensures
        ({
            let (r, t) = s.resolve(p, v, sc);
            &&& run(c, s.code.insns.len() as int, m, t.code.insns.len() as int) == Ctl::At(e)
            &&& brought(p, s, t, m, e, r, sc, w)
            &&& holds(p, t, e, b, wb)
        }),
{
    lemma_mnemonics();
    let n = s.code.insns.len() as int;
    let (r, t) = s.resolve(p, v, sc);
    let r29: u8 = 29;
    lemma_grows_resolve(s, p, v, sc);
    lemma_length(s.code, t.code);
    if p.home(b) is Spill {
        lemma_shadow_register(p, s, p.home(b)->Spill_0.0 as int);
    }
    if p.resident@[v.0 as int] is Some || p.home(v) is Reg {
        m
    } else {
        let slot = p.home(v)->Spill_0;
        lemma_shadow_register(p, s, slot.0 as int);
        if p.const_smi@[v.0 as int] is Some {
            lemma_mov64(c, s, sc, w, m);
            Cpu { x: m.x.update(sc as int, w), ..m }
        } else if p.const_pool@[v.0 as int] is Some {
            let id = p.literal_ids@[p.const_pool@[v.0 as int]->0 as int];
            lemma_at(s.code, Insn::LdrLit(spec_xr(sc), id), c);
            lemma_length(s.code, c);
            lemma_next(c, n, m, n);
            Cpu { x: m.x.update(sc as int, w), ..m }
        } else if s.shadow[slot.0 as int] is Some && p.r1a_mode != 0 {
            let sr = s.shadow[slot.0 as int]->0;
            let e = lemma_serve(c, s, p, slot, sr, sc, m);
            assert(t.shadow == s.shadow && t.of_reg == s.of_reg);
            assert(t.hits.contains(sr)) by {
                if !s.hits.contains(sr) {
                    assert(s.hits.push(sr)[s.hits.len() as int] == sr);
                }
            }
            assert forall|q: u8| #[trigger] s.hits.contains(q) implies t.hits.contains(q) by {
                if !s.hits.contains(sr) {
                    let i = choose|i: int| 0 <= i < s.hits.len() && s.hits[i] == q;
                    assert(s.hits.push(sr)[i] == q);
                }
            }
            assert(e.x[r29 as int] == m.x[r29 as int]);
            e
        } else {
            let s1 = s.spill_access("ldr"@, spec_x(sc), slot);
            let e1 = loaded(m, slot, sc);
            lemma_grows_seed(s1, p, slot, spec_xr(sc));
            if p.r1a_mode != 0 && p.profitable(s.pos) {
                lemma_grows(s1.code, t.code, c);
            }
            lemma_access(c, s, "ldr"@, sc, slot, m);
            assert(e1.x[r29 as int] == m.x[r29 as int]);
            assert(ready(p, s1, e1));
            if p.r1a_mode != 0 && p.profitable(s.pos) {
                let e = lemma_seed(c, s1, p, slot, sc, e1);
                lemma_grows_access(s, "ldr"@, spec_x(sc), slot);
                lemma_length(s.code, s1.code);
                lemma_length(s1.code, t.code);
                lemma_resume(c, n, m, s1.code.insns.len() as int, e1, t.code.insns.len() as int);
                assert(!p.r1a_free@.contains(sc));
                assert(e.x[sc as int] == e1.x[sc as int]);
                assert(e.x[r29 as int] == e1.x[r29 as int]);
                e
            } else {
                e1
            }
        }
    }
}

// ── Results ─────────────────────────────────────────────────────────────

pub(crate) proof fn lemma_grows_refresh(s: St, p: Plan, dst: VReg, f: u8)
    ensures
        grows(s.code, s.refresh(p, dst, spec_xr(f)).code),
{
    reveal(grows);
}

/// The resident register takes the result.
pub(crate) proof fn lemma_refresh(c: Code, s: St, p: Plan, dst: VReg, f: u8, m: Cpu) -> (e: Cpu)
    requires
        m.x.len() == 32,
        lodged(p, dst),
        f < 29,
        grows(s.refresh(p, dst, spec_xr(f)).code, c),
    ensures
        run(c, s.code.insns.len() as int, m, s.refresh(p, dst, spec_xr(f)).code.insns.len() as int) == Ctl::At(e),
        e == (match p.resident@[dst.0 as int] {
            Some(rr) => Cpu { x: m.x.update(rr as int, m.x[f as int]), ..m },
            None => m,
        }),
{
    lemma_mnemonics();
    let n = s.code.insns.len() as int;
    match p.resident@[dst.0 as int] {
        Some(rr) => {
            let e = Cpu { x: m.x.update(rr as int, m.x[f as int]), ..m };
            if rr != f {
                lemma_at(s.code, Insn::Op("mov"@, seq![spec_x(rr), spec_x(f)]), c);
                lemma_next(c, n, m, n);
            } else {
                assert(e.x =~= m.x);
                assert(e == m);
            }
            e
        },
        None => m,
    }
}

pub(crate) proof fn lemma_grows_commit(s: St, p: Plan, dst: VReg, f: u8)
    ensures
        grows(s.code, s.commit(p, dst, spec_xr(f)).code),
{
    lemma_grows_refresh(s, p, dst, f);
    match p.home(dst) {
        Assignment::Reg(_) => {},
        Assignment::Spill(slot) => {
            let s1 = s.spill_access("str"@, spec_x(f), slot);
            let s2 = s1.seed(p, slot, spec_xr(f));
            lemma_grows_access(s, "str"@, spec_x(f), slot);
            lemma_grows_seed(s1, p, slot, spec_xr(f));
            lemma_grows(s.code, s1.code, s2.code);
            lemma_grows_refresh(s1, p, dst, f);
            lemma_grows_refresh(s2, p, dst, f);
            lemma_grows(s.code, s1.code, s1.refresh(p, dst, spec_xr(f)).code);
            lemma_grows(s.code, s2.code, s2.refresh(p, dst, spec_xr(f)).code);
            let r1 = s.refresh(p, dst, spec_xr(f));
            let r2 = r1.mov64(spec_xr(17), poison(slot));
            lemma_grows_mov64(r1, 17, poison(slot));
            lemma_grows_access(r2, "str"@, spec_x(17), slot);
            lemma_grows(s.code, r1.code, r2.code);
            lemma_grows(s.code, r2.code, r2.spill_access("str"@, spec_x(17), slot).code);
        },
    }
}

/// The register in which a result is computed: the scratch one, or one in which it is kept.
pub open spec fn targets(p: Plan, dst: VReg, f: u8) -> bool {
    &&& f == 16 || p.resident@[dst.0 as int] == Some(f) || p.home(dst) == Assignment::Reg(f)
    &&& p.resident@[dst.0 as int] is None ==> (p.home(dst) matches Assignment::Reg(r) ==> f == r)
}

/// A result is put into its home.
#[verifier::spinoff_prover]
pub(crate) proof fn lemma_commit(c: Code, s: St, p: Plan, dst: VReg, f: u8, m: Cpu) -> (e: Cpu)
    requires
        ready(p, s, m),
        lodged(p, dst),
        f < 29,
        f != 19,
        grows(s.commit(p, dst, spec_xr(f)).code, c),
    ensures
        run(c, s.code.insns.len() as int, m, s.commit(p, dst, spec_xr(f)).code.insns.len() as int) == Ctl::At(e),
        targets(p, dst, f) ==> settled(p, e, dst, m.x[f as int]),
        kept(p, m, e, dst),
{
    let n = s.code.insns.len() as int;
    let t = s.commit(p, dst, spec_xr(f));
    let end = t.code.insns.len() as int;
    let x = spec_xr(f);
    let r29: u8 = 29;
    lemma_mnemonics();
    assert("str"@ != "ldr"@);
    let plain = p.const_smi@[dst.0 as int] is None && p.const_pool@[dst.0 as int] is None && p.home(dst) is Spill;
    if plain && !p.s2_smi@[dst.0 as int] {
        let slot = p.home(dst)->Spill_0;
        let s1 = s.spill_access("str"@, spec_x(f), slot);
        let m1 = stored(m, slot, f);
        lemma_grows_access(s, "str"@, spec_x(f), slot);
        assert(m1.x[r29 as int] == m.x[r29 as int]);
        assert(m1.x[f as int] == m.x[f as int]);
        assert((m1.mem)(slot_at(m1, slot)) == m.x[f as int]);
        let k1 = s1.code.insns.len() as int;
        lemma_length(s.code, s1.code);
        if p.r1a_mode != 0 && p.resident@[dst.0 as int] is None && p.profitable(s.pos) {
            let s2 = s1.seed(p, slot, x);
            lemma_grows_seed(s1, p, slot, x);
            assert(t == s2);
            lemma_grows(s1.code, s2.code, c);
            lemma_access(c, s, "str"@, f, slot, m);
            let e = lemma_seed(c, s1, p, slot, f, m1);
            lemma_length(s1.code, s2.code);
            lemma_resume(c, n, m, k1, m1, end);
            assert(e.x[r29 as int] == m1.x[r29 as int]);
            e
        } else {
            lemma_grows_refresh(s1, p, dst, f);
            lemma_grows(s1.code, t.code, c);
            lemma_access(c, s, "str"@, f, slot, m);
            let e = lemma_refresh(c, s1, p, dst, f, m1);
            lemma_length(s1.code, t.code);
            lemma_resume(c, n, m, k1, m1, end);
            assert(e.x[r29 as int] == m1.x[r29 as int]);
            e
        }
    } else if plain && p.s2_mode == 2 {
        let slot = p.home(dst)->Spill_0;
        let r1 = s.refresh(p, dst, x);
        let r2 = r1.mov64(spec_xr(17), poison(slot));
        lemma_grows_refresh(s, p, dst, f);
        lemma_grows_mov64(r1, 17, poison(slot));
        lemma_grows_access(r2, "str"@, spec_x(17), slot);
        lemma_grows(r2.code, t.code, c);
        lemma_grows(r1.code, r2.code, c);
        let m1 = lemma_refresh(c, s, p, dst, f, m);
        lemma_mov64(c, r1, 17, poison(slot), m1);
        let m2 = Cpu { x: m1.x.update(17, poison(slot)), ..m1 };
        assert(m2.x[r29 as int] == m.x[r29 as int]);
        lemma_access(c, r2, "str"@, 17, slot, m2);
        let e = stored(m2, slot, 17);
        lemma_length(s.code, r1.code);
        lemma_length(r1.code, r2.code);
        lemma_length(r2.code, t.code);
        lemma_resume(c, n, m, r1.code.insns.len() as int, m1, r2.code.insns.len() as int);
        lemma_resume(c, n, m, r2.code.insns.len() as int, m2, end);
        assert(e.x[r29 as int] == m.x[r29 as int]);
        e
    } else {
        lemma_refresh(c, s, p, dst, f, m)
    }
}

// ── Sequences between operands and result ───────────────────────────────

/// Two words, wherever they live, as the operands of an operation that fails to a block.
pub open spec fn words_operable(p: Plan, s: St, m: Cpu, dst: VReg, a: VReg, wa: u64, b: VReg, wb: u64, fail: BlockId) -> bool {
    &&& ready(p, s, m)
    &&& lodged(p, dst)
    &&& lodged(p, a)
    &&& lodged(p, b)
    &&& holds(p, s, m, a, wa)
    &&& holds(p, s, m, b, wb)
    &&& behind(s, p.labels@[fail.0 as int])
}

/// As [`words_operable`], of small integers.
pub open spec fn operable(p: Plan, s: St, m: Cpu, dst: VReg, a: VReg, va: int, b: VReg, vb: int, fail: BlockId) -> bool {
    &&& is_smi(va)
    &&& is_smi(vb)
    &&& words_operable(p, s, m, dst, a, smi(va), b, smi(vb), fail)
}

/// Both operands are brought into registers, which no sequence overwrites too early.
pub(crate) proof fn lemma_operands(c: Code, s: St, p: Plan, dst: VReg, a: VReg, wa: u64, b: VReg, wb: u64, fail: BlockId, m: Cpu) -> (e:
    Cpu)
    requires
        words_operable(p, s, m, dst, a, wa, b, wb, fail),
        grows(s.resolve(p, a, 16).1.resolve(p, b, 17).1.code, c),
    ensures
        ({
            let (ra, s1) = s.resolve(p, a, 16);
            let (rb, s2) = s1.resolve(p, b, 17);
            let l = p.labels@[fail.0 as int];
            &&& s.code.insns.len() <= s2.code.insns.len()
            &&& s2.code.labels.len() < u32::MAX - 4
            &&& s2.pos == s.pos
            &&& run(c, s.code.insns.len() as int, m, s2.code.insns.len() as int) == Ctl::At(e)
            &&& e.x[ra.num as int] == wa
            &&& e.x[rb.num as int] == wb
            &&& ra == spec_xr(ra.num)
            &&& rb == spec_xr(rb.num)
            &&& ra.num < 29 && ra.num != 17 && ra.num != 19 && ra.num != 20
            &&& rb.num < 29 && rb.num != 16 && rb.num != 19 && rb.num != 20
            &&& ready(p, s2, e)
            &&& holds(p, s2, e, b, wb)
            &&& quiet(p, m, e)
            &&& l.0 < s2.code.labels.len()
            &&& s2.code.labels[l.0 as int] matches Some(t) ==> t <= s2.code.insns.len()
        }),
{
    let n = s.code.insns.len() as int;
    let (ra, s1) = s.resolve(p, a, 16);
    let (rb, s2) = s1.resolve(p, b, 17);
    lemma_grows_resolve(s, p, a, 16);
    lemma_grows_resolve(s1, p, b, 17);
    lemma_grows(s1.code, s2.code, c);
    lemma_grows(s.code, s1.code, s2.code);
    let e1 = lemma_resolve(c, s, p, a, wa, 16, m, b, wb);
    let e = lemma_resolve(c, s1, p, b, wb, 17, e1, b, wb);
    lemma_length(s.code, s1.code);
    lemma_length(s1.code, s2.code);
    lemma_resume(c, n, m, s1.code.insns.len() as int, e1, s2.code.insns.len() as int);
    assert(e.x[ra.num as int] == e1.x[ra.num as int]) by {
        assert(r_kept(p, s1, 17, ra.num));
    }
    assert forall|r: u8| r < 32 && !scratch(r) && !p.r1a_free@.contains(r) implies #[trigger] e.x[r as int]
        == m.x[r as int] by {
        assert(r_kept(p, s, 16, r));
        assert(r_kept(p, s1, 17, r));
        assert(e1.x[r as int] == m.x[r as int]);
    }
    reveal(grows);
    e
}

/// The result of a sequence on registers is put into its home; a sequence that fails goes on to its
/// label.
#[verifier::spinoff_prover]
pub(crate) proof fn lemma_finish(
    c: Code,
    n: int,
    m: Cpu,
    j: int,
    e: Cpu,
    s: St,
    p: Plan,
    dst: VReg,
    f: u8,
    w: u64,
    l: Label,
    ok: bool,
)
    requires
        0 <= n <= j <= s.code.insns.len(),
        m.x.len() == 32,
        run(c, n, m, j) == Ctl::At(e),
        quiet(p, m, e),
        ready(p, s, e),
        lodged(p, dst),
        targets(p, dst, f),
        match run(c, j, e, s.code.insns.len() as int) {
            Ctl::At(g) => ok && g.x[f as int] == w && same_but(e, g, f),
            Ctl::To(t, g) => !ok && t == l && same_but(e, g, f),
            _ => false,
        },
        grows(s.commit(p, dst, spec_xr(f)).code, c),
        !ok ==> l.0 < c.labels.len() && (c.labels[l.0 as int] matches Some(t) ==> t <= j),
    ensures
        match run(c, n, m, s.commit(p, dst, spec_xr(f)).code.insns.len() as int) {
            Ctl::At(g) => ok && settled(p, g, dst, w) && kept(p, m, g, dst),
            Ctl::To(t, g) => !ok && t == l && kept(p, m, g, dst),
            _ => false,
        },
{
    let k = s.code.insns.len() as int;
    let t = s.commit(p, dst, spec_xr(f));
    let end = t.code.insns.len() as int;
    let r29: u8 = 29;
    lemma_grows_commit(s, p, dst, f);
    lemma_length(s.code, t.code);
    lemma_resume(c, n, m, j, e, end);
    assert(kept(p, m, e, dst));
    match run(c, j, e, k) {
        Ctl::At(g) => {
            assert(g.x[r29 as int] == e.x[r29 as int]);
            assert(kept(p, e, g, dst));
            let h = lemma_commit(c, s, p, dst, f, g);
            lemma_resume(c, j, e, k, g, end);
            lemma_kept(p, m, e, g, dst);
            lemma_kept(p, m, g, h, dst);
        },
        Ctl::To(to, g) => {
            assert(kept(p, e, g, dst));
            lemma_kept(p, m, e, g, dst);
            lemma_gone(c, j, e, k, end, l, g);
        },
        _ => {},
    }
}

/// The code up to and with the tag tests.
pub open spec fn checked(s: St, p: Plan, a: VReg, b: VReg, fail: BlockId) -> St {
    let (ra, s1) = s.resolve(p, a, 16);
    let (rb, s2) = s1.resolve(p, b, 17);
    s2.tag_check(p, a, ra, b, rb, fail)
}

pub(crate) proof fn lemma_grows_tag_check(s: St, p: Plan, a: VReg, ra: Reg, b: VReg, rb: Reg, fail: BlockId)
    ensures
        grows(s.code, s.tag_check(p, a, ra, b, rb, fail).code),
        s.tag_check(p, a, ra, b, rb, fail).code.labels == s.code.labels,
{
    reveal(grows);
}

// ── Sums ────────────────────────────────────────────────────────────────

/// The code of a sum or a difference, up to where its result is in a register.
pub open spec fn sum_core(s: St, p: Plan, op: SmiOp, f: u8, a: VReg, ra: Reg, b: VReg, rb: Reg, fail: BlockId) -> St {
    s.tag_check(p, a, ra, b, rb, fail).i3(simple_name(op), spec_x(f), Operand::Reg(ra), Operand::Reg(rb)).bc(
        Cond::Vs,
        p.labels@[fail.0 as int],
    )
}

/// A sum of small integers is left where the destination is kept, tagged; a sum that is no small
/// integer goes to the failure label. So with a difference. Nothing else that lives in a register or
/// a slot changes.
#[verifier::spinoff_prover]
pub proof fn law_sums_are_checked(
    s: St,
    p: Plan,
    op: SmiOp,
    dst: VReg,
    a: VReg,
    b: VReg,
    fail: BlockId,
    m: Cpu,
    va: int,
    vb: int,
)
    requires
        op is Add || op is Sub,
        operable(p, s, m, dst, a, va, b, vb, fail),
    ensures
        ({
            let v = if op is Add {
                va + vb
            } else {
                va - vb
            };
            match added(s, s.smi_simple(p, op, dst, a, b, fail), m) {
                Ctl::At(n) => is_smi(v) && settled(p, n, dst, smi(v)) && kept(p, m, n, dst),
                Ctl::To(l, n) => !is_smi(v) && l == p.labels@[fail.0 as int] && kept(p, m, n, dst),
                _ => false,
            }
        }),
{
    let v = if op is Add {
        va + vb
    } else {
        va - vb
    };
    let l = p.labels@[fail.0 as int];
    let t = s.smi_simple(p, op, dst, a, b, fail);
    let c = t.code;
    let n = s.code.insns.len() as int;
    let (ra, s1) = s.resolve(p, a, 16);
    let (rb, s2) = s1.resolve(p, b, 17);
    let f = dest_direct(p, dst).num;
    assert(dest_direct(p, dst) == spec_xr(f));
    let u = s2.tag_check(p, a, ra, b, rb, fail);
    let z = sum_core(s2, p, op, f, a, ra, b, rb, fail);
    assert(t == z.commit(p, dst, spec_xr(f)));
    lemma_grows_commit(z, p, dst, f);
    lemma_grows_itself(c);
    let i = Insn::Op(simple_name(op), seq![spec_x(f), Operand::Reg(ra), Operand::Reg(rb)]);
    let y = u.code.with(i);
    assert(z.code == y.with(Insn::BCond(Cond::Vs, l)));
    lemma_at(y, Insn::BCond(Cond::Vs, l), c);
    lemma_at(u.code, i, c);
    lemma_grows_tag_check(s2, p, a, ra, b, rb, fail);
    lemma_grows(s2.code, u.code, c);
    let e = lemma_operands(c, s, p, dst, a, smi(va), b, smi(vb), fail, m);
    let j = s2.code.insns.len() as int;
    let k = u.code.insns.len() as int;
    lemma_length(s2.code, u.code);
    assert(c.labels[l.0 as int] == s2.code.labels[l.0 as int] && l.0 < c.labels.len()) by {
        reveal(grows);
    }
    assert(forall|q: int| j <= q < k ==> #[trigger] c.insns[q] == u.code.insns[q]) by {
        reveal(grows);
    }
    let fl = lemma_tag_check(c, j, e, e, s2, p, a, ra.num, va, b, rb.num, vb, fail);
    let g = Cpu { f: fl, ..e };
    lemma_mnemonics();
    lemma_tag(va);
    lemma_tag(vb);
    lemma_word(4 * v);
    lemma_next(c, j, e, k);
    lemma_next(c, j, e, k + 1);
    assert(is_signed(4 * v) <==> is_smi(v));
    lemma_finish(c, n, m, j, e, z, p, dst, f, smi(v), l, is_smi(v));
}

// ── Division ────────────────────────────────────────────────────────────

/// The code of a division, up to where its result is in a register.
pub open spec fn division_core(s: St, p: Plan, op: SmiOp, f: u8, a: VReg, ra: u8, b: VReg, rb: u8, fail: BlockId) -> St {
    let l = p.labels@[fail.0 as int];
    let s3 = s.tag_check(p, a, spec_xr(ra), b, spec_xr(rb), fail).cbz(spec_xr(rb), l).i3(
        "asr"@,
        spec_x(19),
        spec_x(ra),
        spec_imm(2),
    ).i3("asr"@, spec_x(20), spec_x(rb), spec_imm(2)).i3("sdiv"@, spec_x(16), spec_x(19), spec_x(20)).i4(
        "msub"@,
        spec_x(17),
        spec_x(16),
        spec_x(20),
        spec_x(19),
    );
    let done = s3.code.next_label();
    let s4 = s3.lab().cbz(spec_xr(17), done).i3("eor"@, spec_x(19), spec_x(17), spec_x(20)).i2(
        "cmp"@,
        spec_x(19),
        spec_imm(0),
    ).bc(Cond::Ge, done).i3("sub"@, spec_x(16), spec_x(16), spec_imm(1)).i3(
        "add"@,
        spec_x(17),
        spec_x(17),
        spec_x(20),
    ).bind(done);
    if op is Div {
        s4.i3("lsl"@, spec_x(19), spec_x(16), spec_imm(2)).i2(
            "cmp"@,
            spec_x(16),
            Operand::RegShift(spec_xr(19), Shift::Asr, 2),
        ).bc(Cond::Ne, l).i2("mov"@, spec_x(f), spec_x(19))
    } else {
        s4.i3("lsl"@, spec_x(f), spec_x(17), spec_imm(2))
    }
}

#[verifier::spinoff_prover]
pub(crate) proof fn lemma_division_core(s: St, p: Plan, op: SmiOp, f: u8, a: VReg, ra: u8, b: VReg, rb: u8, fail: BlockId)
    requires
        s.code.labels.len() < u32::MAX - 4,
        p.labels@[fail.0 as int].0 < s.code.labels.len(),
        s.code.labels[p.labels@[fail.0 as int].0 as int] matches Some(t) ==> t <= s.code.insns.len(),
    ensures
        ({
            let u = s.tag_check(p, a, spec_xr(ra), b, spec_xr(rb), fail);
            let z = division_core(s, p, op, f, a, ra, b, rb, fail);
            let k = u.code.insns.len() as int;
            &&& grows(u.code, z.code)
            &&& z.code.insns.len() == k + division_length(op)
            &&& is_division(
                z.code,
                s.code.insns.len() as int,
                k,
                op,
                f,
                ra,
                rb,
                p.labels@[fail.0 as int],
                u.code.next_label(),
            )
        }),
{
    reveal(grows);
    let u = s.tag_check(p, a, spec_xr(ra), b, spec_xr(rb), fail);
    assert(u.code.labels == s.code.labels);
}

pub(crate) proof fn lemma_division_grown(z: Code, c: Code, n: int, k: int, op: SmiOp, f: u8, ra: u8, rb: u8, l: Label, done: Label)
    requires
        is_division(z, n, k, op, f, ra, rb, l, done),
        0 <= k,
        z.insns.len() == k + division_length(op),
        grows(z, c),
    ensures
        is_division(c, n, k, op, f, ra, rb, l, done),
{
    reveal(grows);
    assert forall|i: int| 0 <= i < division_length(op) implies #[trigger] c.insns[k + i] == z.insns[k + i] by {}
    assert(c.insns[k + 0] == z.insns[k + 0]);
}

/// A quotient of small integers is rounded towards minus infinity and left where the destination is
/// kept, tagged; a remainder has the divisor's sign. A zero divisor, and the one quotient that is no
/// small integer, go to the failure label. Nothing else that lives in a register or a slot changes.
#[verifier::spinoff_prover]
pub proof fn law_division_is_floored(
    s: St,
    p: Plan,
    op: SmiOp,
    dst: VReg,
    a: VReg,
    b: VReg,
    fail: BlockId,
    m: Cpu,
    va: int,
    vb: int,
)
    requires
        op is Div || op is Mod,
        operable(p, s, m, dst, a, va, b, vb, fail),
    ensures
        ({
            let v = if op is Div {
                floored(va, vb)
            } else {
                floored_rest(va, vb)
            };
            match added(s, s.smi_divmod(p, op, dst, a, b, fail), m) {
                Ctl::At(n) => vb != 0 && is_smi(v) && settled(p, n, dst, smi(v)) && kept(p, m, n, dst),
                Ctl::To(l, n) => (vb == 0 || !is_smi(v)) && l == p.labels@[fail.0 as int] && kept(p, m, n, dst),
                _ => false,
            }
        }),
{
    let v = if op is Div {
        floored(va, vb)
    } else {
        floored_rest(va, vb)
    };
    let l = p.labels@[fail.0 as int];
    let t = s.smi_divmod(p, op, dst, a, b, fail);
    let c = t.code;
    let n = s.code.insns.len() as int;
    let (xa, s1) = s.resolve(p, a, 16);
    let (xb, s2) = s1.resolve(p, b, 17);
    let ra = xa.num;
    let rb = xb.num;
    let f = dest_direct(p, dst).num;
    assert(dest_direct(p, dst) == spec_xr(f));
    assert(xa == spec_xr(ra) && xb == spec_xr(rb));
    let u = s2.tag_check(p, a, xa, b, xb, fail);
    let z = division_core(s2, p, op, f, a, ra, b, rb, fail);
    assert(t == z.commit(p, dst, spec_xr(f)));
    lemma_grows_resolve(s, p, a, 16);
    lemma_grows_resolve(s1, p, b, 17);
    lemma_grows(s.code, s1.code, s2.code);
    assert(l.0 < s2.code.labels.len() && (s2.code.labels[l.0 as int] matches Some(q) ==> q <= s2.code.insns.len())) by {
        reveal(grows);
    }
    lemma_division_core(s2, p, op, f, a, ra, b, rb, fail);
    lemma_grows_commit(z, p, dst, f);
    lemma_grows(u.code, z.code, c);
    lemma_grows_tag_check(s2, p, a, xa, b, xb, fail);
    lemma_grows(s2.code, u.code, c);
    let e = lemma_operands(c, s, p, dst, a, smi(va), b, smi(vb), fail, m);
    let j = s2.code.insns.len() as int;
    let k = u.code.insns.len() as int;
    let done = u.code.next_label();
    lemma_length(s2.code, u.code);
    lemma_length(u.code, c);
    lemma_division_grown(z.code, c, j, k, op, f, ra, rb, l, done);
    assert(forall|q: int| j <= q < k ==> #[trigger] c.insns[q] == u.code.insns[q]) by {
        reveal(grows);
    }
    let fl = lemma_tag_check(c, j, e, e, s2, p, a, ra, va, b, rb, vb, fail);
    let g = Cpu { f: fl, ..e };
    lemma_division_run(c, j, k, op, f, ra, rb, l, done, e, g, va, vb);
    lemma_grows_itself(c);
    lemma_finish(c, n, m, j, e, z, p, dst, f, smi(v), l, vb != 0 && is_smi(v));
}

// ── Shifts ──────────────────────────────────────────────────────────────

/// The code of a shift, up to where its result is in a register.
pub open spec fn shift_core(s: St, p: Plan, f: u8, ra: u8, rc: u8, fail: BlockId) -> St {
    let l = p.labels@[fail.0 as int];
    let s3 = s.i2("tst"@, spec_x(ra), spec_imm(3)).bc(Cond::Ne, l).i2("tst"@, spec_x(rc), spec_imm(3)).bc(
        Cond::Ne,
        l,
    ).i3("add"@, spec_x(19), spec_x(rc), spec_imm(244)).i2("cmp"@, spec_x(19), spec_imm(488)).bc(Cond::Hi, l).i3(
        "asr"@,
        spec_x(19),
        spec_x(rc),
        spec_imm(2),
    );
    let right = s3.code.next_label();
    let s4 = s3.lab();
    let done = s4.code.next_label();
    s4.lab().i2("cmp"@, spec_x(19), spec_imm(0)).bc(Cond::Lt, right).i3(
        "lslv"@,
        spec_x(20),
        spec_x(ra),
        spec_x(19),
    ).i3("asrv"@, spec_x(19), spec_x(20), spec_x(19)).i2("cmp"@, spec_x(19), spec_x(ra)).bc(Cond::Ne, l).i2(
        "mov"@,
        spec_x(f),
        spec_x(20),
    ).b(done).bind(right).i2("neg"@, spec_x(19), spec_x(19)).i3("asrv"@, spec_x(20), spec_x(ra), spec_x(19)).i3(
        "and"@,
        spec_x(f),
        spec_x(20),
        spec_imm((-4) as i64),
    ).bind(done)
}

#[verifier::spinoff_prover]
pub(crate) proof fn lemma_shift_core(s: St, p: Plan, f: u8, ra: u8, rc: u8, fail: BlockId)
    requires
        s.code.labels.len() < u32::MAX - 4,
        p.labels@[fail.0 as int].0 < s.code.labels.len(),
        s.code.labels[p.labels@[fail.0 as int].0 as int] matches Some(t) ==> t <= s.code.insns.len(),
    ensures
        ({
            let z = shift_core(s, p, f, ra, rc, fail);
            let k = s.code.insns.len() as int;
            &&& grows(s.code, z.code)
            &&& z.code.insns.len() == k + 19
            &&& is_shift(
                z.code,
                k,
                f,
                ra,
                rc,
                p.labels@[fail.0 as int],
                s.code.next_label(),
                Label((s.code.labels.len() + 1) as u32),
            )
        }),
{
    reveal(grows);
}

pub(crate) proof fn lemma_shift_grown(z: Code, c: Code, k: int, f: u8, ra: u8, rc: u8, l: Label, right: Label, done: Label)
    requires
        is_shift(z, k, f, ra, rc, l, right, done),
        0 <= k,
        z.insns.len() == k + 19,
        grows(z, c),
    ensures
        is_shift(c, k, f, ra, rc, l, right, done),
{
    reveal(grows);
    assert(c.insns[k + 0] == z.insns[k + 0]);
}

/// A small integer is shifted by a count from -61 to 61, to the right where that is negative, and left
/// where the destination is kept, tagged. Any other count, and a result that is no small integer, go
/// to the failure label. Nothing else that lives in a register or a slot changes.
#[verifier::spinoff_prover]
pub proof fn law_shifts_are_checked(
    s: St,
    p: Plan,
    dst: VReg,
    a: VReg,
    count: VReg,
    fail: BlockId,
    m: Cpu,
    va: int,
    vc: int,
)
    requires
        operable(p, s, m, dst, a, va, count, vc, fail),
    ensures
        ({
            let v = if vc >= 0 {
                va * pow2(vc as nat)
            } else {
                va / (pow2((-vc) as nat) as int)
            };
            match added(s, s.smi_shift(p, dst, a, count, fail), m) {
                Ctl::At(n) => -61 <= vc <= 61 && is_smi(v) && settled(p, n, dst, smi(v)) && kept(p, m, n, dst),
                Ctl::To(l, n) => !(-61 <= vc <= 61 && is_smi(v)) && l == p.labels@[fail.0 as int] && kept(p, m, n, dst),
                _ => false,
            }
        }),
{
    let v = if vc >= 0 {
        va * pow2(vc as nat)
    } else {
        va / (pow2((-vc) as nat) as int)
    };
    let l = p.labels@[fail.0 as int];
    let t = s.smi_shift(p, dst, a, count, fail);
    let c = t.code;
    let n = s.code.insns.len() as int;
    let (xa, s1) = s.resolve(p, a, 16);
    let (xc, s2) = s1.resolve(p, count, 17);
    let ra = xa.num;
    let rc = xc.num;
    let f = dest(p, dst).num;
    assert(dest(p, dst) == spec_xr(f));
    assert(xa == spec_xr(ra) && xc == spec_xr(rc));
    let z = shift_core(s2, p, f, ra, rc, fail);
    assert(t == z.commit(p, dst, spec_xr(f)));
    lemma_grows_resolve(s, p, a, 16);
    lemma_grows_resolve(s1, p, count, 17);
    lemma_grows(s.code, s1.code, s2.code);
    assert(l.0 < s2.code.labels.len() && (s2.code.labels[l.0 as int] matches Some(q) ==> q <= s2.code.insns.len())) by {
        reveal(grows);
    }
    lemma_shift_core(s2, p, f, ra, rc, fail);
    lemma_grows_commit(z, p, dst, f);
    lemma_grows(s2.code, z.code, c);
    let e = lemma_operands(c, s, p, dst, a, smi(va), count, smi(vc), fail, m);
    let j = s2.code.insns.len() as int;
    let right = s2.code.next_label();
    let done = Label((s2.code.labels.len() + 1) as u32);
    lemma_shift_grown(z.code, c, j, f, ra, rc, l, right, done);
    lemma_shift_run(c, j, f, ra, rc, l, right, done, e, va, vc);
    lemma_grows_itself(c);
    lemma_finish(c, n, m, j, e, z, p, dst, f, smi(v), l, -61 <= vc <= 61 && is_smi(v));
}

// ── Multiplication ──────────────────────────────────────────────────────

/// Whether a value is read from elsewhere than the home of a destination.
pub open spec fn apart(p: Plan, dst: VReg, b: VReg) -> bool {
    match p.resident@[b.0 as int] {
        Some(r) => p.home(dst) != Assignment::Reg(r),
        None => p.home(dst) != p.home(b) || (p.home(b) is Spill && (p.const_smi@[b.0 as int] is Some
            || p.const_pool@[b.0 as int] is Some)),
    }
}

/// Whether a value is read from its home as it is, not from a mirror of its slot.
pub open spec fn unmirrored(p: Plan, b: VReg) -> bool {
    p.resident@[b.0 as int] is Some || p.home(b) is Reg || p.r1a_mode == 0
}

/// What the second factor is read as after the low word is parked: that word, where the factor lives
/// in the destination's home.
pub open spec fn read_again(p: Plan, dst: VReg, b: VReg, va: int, vb: int) -> u64 {
    if apart(p, dst, b) {
        smi(vb)
    } else {
        smi(va * vb)
    }
}

/// Whether the check of a product passes: the high word of the first factor and `w` is the sign of the
/// low word.
pub open spec fn passes(va: int, w: u64, low: u64) -> bool {
    word((va * signed(w)) / 0x1_0000_0000_0000_0000) == shifted_right(low, 63)
}

/// The low word of a product, parked in the home of the destination.
pub open spec fn park(s: St, p: Plan, dst: VReg) -> St {
    match p.home(dst) {
        Assignment::Reg(r) => s.i2("mov"@, spec_x(r), spec_x(17)),
        Assignment::Spill(slot) => s.spill_access("str"@, spec_x(17), slot),
    }
}

/// That word taken up again: the register it is in, and the code.
pub open spec fn unpark(s: St, p: Plan, dst: VReg) -> (u8, St) {
    match p.home(dst) {
        Assignment::Reg(r) => (r, s),
        Assignment::Spill(slot) => (17u8, s.spill_access("ldr"@, spec_x(17), slot)),
    }
}

pub open spec fn parked(p: Plan, m: Cpu, dst: VReg, w: u64) -> bool {
    match p.home(dst) {
        Assignment::Reg(r) => m.x[r as int] == w,
        Assignment::Spill(slot) => (m.mem)(slot_at(m, slot)) == w,
    }
}

/// A value stays what it was while only scratch registers change.
pub(crate) proof fn lemma_holds(p: Plan, s: St, t: St, m: Cpu, e: Cpu, b: VReg, w: u64)
    requires
        ready(p, s, m),
        lodged(p, b),
        holds(p, s, m, b, w),
        t.shadow == s.shadow,
        t.of_reg == s.of_reg,
        t.code.pool == s.code.pool,
        e.mem == m.mem,
        e.x.len() == 32,
        forall|r: u8| r < 32 && !scratch(r) ==> #[trigger] e.x[r as int] == m.x[r as int],
    ensures
        holds(p, t, e, b, w),
        ready(p, t, e),
{
    let r29: u8 = 29;
    assert(e.x[r29 as int] == m.x[r29 as int]);
    if p.home(b) is Spill {
        lemma_shadow_register(p, s, p.home(b)->Spill_0.0 as int);
    }
}

pub(crate) proof fn lemma_grows_park(s: St, p: Plan, dst: VReg)
    ensures
        grows(s.code, park(s, p, dst).code),
        park(s, p, dst).code.labels == s.code.labels,
        grows(s.code, unpark(s, p, dst).1.code),
{
    reveal(grows);
}

#[verifier::spinoff_prover]
pub(crate) proof fn lemma_park(c: Code, s: St, p: Plan, dst: VReg, b: VReg, w: u64, m: Cpu) -> (e: Cpu)
    requires
        ready(p, s, m),
        lodged(p, dst),
        lodged(p, b),
        apart(p, dst, b) || unmirrored(p, b),
        holds(p, s, m, b, w),
        grows(park(s, p, dst).code, c),
    ensures
        ({
            let t = park(s, p, dst);
            &&& run(c, s.code.insns.len() as int, m, t.code.insns.len() as int) == Ctl::At(e)
            &&& parked(p, e, dst, m.x[17])
            &&& holds(
                p,
                t,
                e,
                b,
                if apart(p, dst, b) {
                    w
                } else {
                    m.x[17]
                },
            )
            &&& ready(p, t, e)
            &&& kept(p, m, e, dst)
            &&& e.x[16] == m.x[16]
        }),
{
    lemma_mnemonics();
    let n = s.code.insns.len() as int;
    let t = park(s, p, dst);
    let r29: u8 = 29;
    lemma_grows_park(s, p, dst);
    lemma_length(s.code, t.code);
    if p.home(b) is Spill {
        lemma_shadow_register(p, s, p.home(b)->Spill_0.0 as int);
        lemma_slot_at(m, p.home(b)->Spill_0);
    }
    match p.home(dst) {
        Assignment::Reg(r) => {
            let e = Cpu { x: m.x.update(r as int, m.x[17]), ..m };
            lemma_at(s.code, Insn::Op("mov"@, seq![spec_x(r), spec_x(17)]), c);
            lemma_next(c, n, m, n);
            assert(e.x[r29 as int] == m.x[r29 as int]);
            e
        },
        Assignment::Spill(slot) => {
            let e = stored(m, slot, 17);
            assert("str"@ != "ldr"@);
            lemma_access(c, s, "str"@, 17, slot, m);
            lemma_slot_at(m, slot);
            assert(e.x[r29 as int] == m.x[r29 as int]);
            e
        },
    }
}

/// The first part of a product: its low word is in `x17`, the first factor without its tag in `x16`.
#[verifier::spinoff_prover]
pub(crate) proof fn lemma_low_word(c: Code, s: St, p: Plan, ra: u8, va: int, b: VReg, vb: int, m: Cpu) -> (e: Cpu)
    requires
        ready(p, s, m),
        s.code.labels.len() < u32::MAX,
        lodged(p, b),
        is_smi(va),
        is_smi(vb),
        ra < 29,
        m.x[ra as int] == smi(va),
        holds(p, s, m, b, smi(vb)),
        ({
            let (r, t) = s.i3("asr"@, spec_x(16), spec_x(ra), spec_imm(2)).resolve(p, b, 17);
            grows(t.i3("mul"@, spec_x(17), spec_x(16), Operand::Reg(r)).code, c)
        }),
    ensures
        ({
            let (r, t) = s.i3("asr"@, spec_x(16), spec_x(ra), spec_imm(2)).resolve(p, b, 17);
            let u = t.i3("mul"@, spec_x(17), spec_x(16), Operand::Reg(r));
            &&& run(c, s.code.insns.len() as int, m, u.code.insns.len() as int) == Ctl::At(e)
            &&& e.x[16] == word(va)
            &&& e.x[17] == word(va * (4 * vb))
            &&& holds(p, u, e, b, smi(vb))
            &&& ready(p, u, e)
            &&& quiet(p, m, e)
        }),
{
    lemma_mnemonics();
    lemma_tag(va);
    lemma_tag(vb);
    lemma_quarter(smi(va), 2);
    lemma_word(va);
    lemma_word(2);
    let n = s.code.insns.len() as int;
    let i = Insn::Op("asr"@, seq![spec_x(16), spec_x(ra), spec_imm(2)]);
    let s3 = s.i3("asr"@, spec_x(16), spec_x(ra), spec_imm(2));
    let (r, t) = s3.resolve(p, b, 17);
    let i2 = Insn::Op("mul"@, seq![spec_x(17), spec_x(16), Operand::Reg(r)]);
    let u = t.i3("mul"@, spec_x(17), spec_x(16), Operand::Reg(r));
    let k = t.code.insns.len() as int;
    lemma_at(t.code, i2, c);
    lemma_grows_resolve(s3, p, b, 17);
    lemma_grows(s3.code, t.code, c);
    lemma_at(s.code, i, c);
    let m3 = Cpu { x: m.x.update(16, word(va)), ..m };
    lemma_next(c, n, m, n);
    assert(run(c, n, m, n + 1) == Ctl::At(m3));
    lemma_holds(p, s, s3, m, m3, b, smi(vb));
    let g = lemma_resolve(c, s3, p, b, smi(vb), 17, m3, b, smi(vb));
    lemma_length(s3.code, t.code);
    lemma_resume(c, n, m, n + 1, m3, k);
    let r16: u8 = 16;
    assert(r_kept(p, s3, 17, r16));
    assert(g.x[r16 as int] == word(va));
    let e = Cpu { x: g.x.update(17, word(va * (4 * vb))), ..g };
    lemma_next(c, n, m, k);
    assert(run(c, n, m, k + 1) == Ctl::At(e));
    lemma_holds(p, t, u, g, e, b, smi(vb));
    assert forall|q: u8| q < 32 && !scratch(q) && !p.r1a_free@.contains(q) implies #[trigger] e.x[q as int]
        == m.x[q as int] by {
        assert(r_kept(p, s3, 17, q));
        assert(g.x[q as int] == m3.x[q as int]);
    }
    e
}

/// The code of a product from where its low word is parked on.
pub open spec fn product_end(s: St, p: Plan, dst: VReg, b: VReg, l: Label) -> St {
    let (r, t) = s.resolve(p, b, 17);
    let (low, u) = unpark(t.i3("smulh"@, spec_x(16), spec_x(16), Operand::Reg(r)), p, dst);
    u.i2("cmp"@, spec_x(16), Operand::RegShift(spec_xr(low), Shift::Asr, 63)).bc(Cond::Ne, l)
}

/// The second part: the high word is compared with the low word's sign.
#[verifier::spinoff_prover]
pub(crate) proof fn lemma_high_word(c: Code, s: St, p: Plan, dst: VReg, va: int, b: VReg, w: u64, low: u64, l: Label, m: Cpu) -> (e:
    Cpu)
    requires
        ready(p, s, m),
        s.code.labels.len() < u32::MAX,
        lodged(p, dst),
        lodged(p, b),
        is_smi(va),
        m.x[16] == word(va),
        parked(p, m, dst, low),
        holds(p, s, m, b, w),
        l.0 < c.labels.len(),
        c.labels[l.0 as int] matches Some(t) ==> t <= s.code.insns.len(),
        grows(product_end(s, p, dst, b, l).code, c),
    ensures
        ({
            let t = product_end(s, p, dst, b, l);
            let r = unpark(t, p, dst).0;
            &&& s.code.insns.len() < t.code.insns.len()
            &&& run(c, s.code.insns.len() as int, m, t.code.insns.len() as int) == if passes(va, w, low) {
                Ctl::At(e)
            } else {
                Ctl::To(l, e)
            }
            &&& e.x.len() == 32
            &&& e.x[r as int] == low
            &&& parked(p, e, dst, low)
            &&& quiet(p, m, e)
        }),
{
    lemma_mnemonics();
    lemma_word(va);
    lemma_word(63);
    let n = s.code.insns.len() as int;
    let (r, t) = s.resolve(p, b, 17);
    let h = t.i3("smulh"@, spec_x(16), spec_x(16), Operand::Reg(r));
    let (rl, u) = unpark(h, p, dst);
    let i = Insn::Op("smulh"@, seq![spec_x(16), spec_x(16), Operand::Reg(r)]);
    let i2 = Insn::Op("cmp"@, seq![spec_x(16), Operand::RegShift(spec_xr(rl), Shift::Asr, 63)]);
    let y = u.code.with(i2);
    lemma_at(y, Insn::BCond(Cond::Ne, l), c);
    lemma_at(u.code, i2, c);
    lemma_grows_park(h, p, dst);
    lemma_grows(h.code, u.code, c);
    lemma_at(t.code, i, c);
    lemma_grows_resolve(s, p, b, 17);
    lemma_length(s.code, t.code);
    lemma_length(h.code, u.code);
    let g = lemma_resolve(c, s, p, b, w, 17, m, b, w);
    let r16: u8 = 16;
    let r29: u8 = 29;
    assert(r_kept(p, s, 17, r16));
    assert(r_kept(p, s, 17, r29));
    assert(g.x[r16 as int] == word(va));
    assert(g.x[r29 as int] == m.x[r29 as int]);
    assert forall|q: u8| q < 32 && !scratch(q) && !p.r1a_free@.contains(q) implies #[trigger] g.x[q as int]
        == m.x[q as int] by {
        assert(r_kept(p, s, 17, q));
    }
    assert(parked(p, g, dst, low));
    let k = t.code.insns.len() as int;
    let k2 = u.code.insns.len() as int;
    let high = word((va * signed(w)) / 0x1_0000_0000_0000_0000);
    let g1 = Cpu { x: g.x.update(16, high), ..g };
    lemma_next(c, n, m, k);
    assert(run(c, n, m, k + 1) == Ctl::At(g1));
    let g2 = match p.home(dst) {
        Assignment::Reg(_) => g1,
        Assignment::Spill(slot) => {
            lemma_access(c, h, "ldr"@, 17, slot, g1);
            lemma_resume(c, n, m, k + 1, g1, k2);
            loaded(g1, slot, 17)
        },
    };
    assert(run(c, n, m, k2) == Ctl::At(g2));
    assert(g2.x[r29 as int] == m.x[r29 as int]);
    assert(g2.x[16] == high);
    assert(g2.x[rl as int] == low);
    let e = Cpu { f: difference(high, shifted_right(low, 63)), ..g2 };
    lemma_next(c, n, m, k2);
    assert(run(c, n, m, k2 + 1) == Ctl::At(e));
    lemma_next(c, n, m, k2 + 1);
    e
}

/// A whole product: it comes to its end where the check passes.
#[verifier::spinoff_prover]
pub(crate) proof fn lemma_product_run(
    s: St,
    p: Plan,
    dst: VReg,
    a: VReg,
    b: VReg,
    fail: BlockId,
    m: Cpu,
    va: int,
    vb: int,
)
    requires
        operable(p, s, m, dst, a, va, b, vb, fail),
        apart(p, dst, b) || unmirrored(p, b),
    ensures
        ({
            let ok = passes(va, read_again(p, dst, b, va, vb), smi(va * vb));
            match added(s, s.smi_mul(p, dst, a, b, fail), m) {
                Ctl::At(n) => ok && settled(p, n, dst, smi(va * vb)) && kept(p, m, n, dst),
                Ctl::To(l, n) => !ok && l == p.labels@[fail.0 as int] && kept(p, m, n, dst),
                _ => false,
            }
        }),
{
    let l = p.labels@[fail.0 as int];
    let t = s.smi_mul(p, dst, a, b, fail);
    let c = t.code;
    let n = s.code.insns.len() as int;
    let (xa, s1) = s.resolve(p, a, 16);
    let (xb, s2) = s1.resolve(p, b, 17);
    let ra = xa.num;
    let rb = xb.num;
    assert(xa == spec_xr(ra) && xb == spec_xr(rb));
    let u = s2.tag_check(p, a, xa, b, xb, fail);
    let s3 = u.i3("asr"@, spec_x(16), spec_x(ra), spec_imm(2));
    let (rb1, s4) = s3.resolve(p, b, 17);
    let s5 = s4.i3("mul"@, spec_x(17), spec_x(16), Operand::Reg(rb1));
    let s6 = park(s5, p, dst);
    let z = product_end(s6, p, dst, b, l);
    let low = unpark(z, p, dst).0;
    assert(t == z.refresh(p, dst, spec_xr(low)));
    let w = read_again(p, dst, b, va, vb);
    let low_word = smi(va * vb);
    assert(va * (4 * vb) == 4 * (va * vb)) by (nonlinear_arith);
    assert(word(va * (4 * vb)) == low_word);
    // how the code grew
    lemma_grows_resolve(s, p, a, 16);
    lemma_grows_resolve(s1, p, b, 17);
    lemma_grows_tag_check(s2, p, a, xa, b, xb, fail);
    lemma_grows_by(u.code, Insn::Op("asr"@, seq![spec_x(16), spec_x(ra), spec_imm(2)]));
    lemma_grows_resolve(s3, p, b, 17);
    lemma_grows_by(s4.code, Insn::Op("mul"@, seq![spec_x(17), spec_x(16), Operand::Reg(rb1)]));
    lemma_grows_park(s5, p, dst);
    lemma_grows_product_end(s6, p, dst, b, l);
    lemma_grows_refresh(z, p, dst, low);
    lemma_grows(s6.code, z.code, c);
    lemma_grows(s5.code, s6.code, c);
    lemma_grows(s4.code, s5.code, c);
    lemma_grows(s3.code, s4.code, c);
    lemma_grows(u.code, s3.code, c);
    lemma_grows(s2.code, u.code, c);
    lemma_length(s2.code, u.code);
    lemma_length(s3.code, s4.code);
    lemma_length(s5.code, s6.code);
    lemma_length(s6.code, z.code);
    lemma_length(z.code, c);
    let e = lemma_operands(c, s, p, dst, a, smi(va), b, smi(vb), fail, m);
    let j = s2.code.insns.len() as int;
    let k = u.code.insns.len() as int;
    assert(c.labels[l.0 as int] == s2.code.labels[l.0 as int] && l.0 < c.labels.len()) by {
        reveal(grows);
    }
    assert(forall|q: int| j <= q < k ==> #[trigger] c.insns[q] == u.code.insns[q]) by {
        reveal(grows);
    }
    let fl = lemma_tag_check(c, j, e, e, s2, p, a, ra, va, b, rb, vb, fail);
    let g = Cpu { f: fl, ..e };
    lemma_holds(p, s2, u, e, g, b, smi(vb));
    let k5 = s5.code.insns.len() as int;
    let k6 = s6.code.insns.len() as int;
    let kz = z.code.insns.len() as int;
    let end = c.insns.len() as int;
    let g5 = lemma_low_word(c, u, p, ra, va, b, vb, g);
    let g6 = lemma_park(c, s5, p, dst, b, smi(vb), g5);
    let gz = lemma_high_word(c, s6, p, dst, va, b, w, low_word, l, g6);
    // one run
    lemma_resume(c, n, m, j, e, k);
    lemma_resume(c, n, m, k, g, k5);
    lemma_resume(c, n, m, k5, g5, k6);
    lemma_resume(c, n, m, k6, g6, kz);
    // what is kept
    assert(kept(p, m, e, dst));
    assert(kept(p, e, g, dst));
    assert(kept(p, g, g5, dst));
    assert(kept(p, g6, gz, dst));
    lemma_kept(p, m, e, g, dst);
    lemma_kept(p, m, g, g5, dst);
    lemma_kept(p, m, g5, g6, dst);
    lemma_kept(p, m, g6, gz, dst);
    if passes(va, w, low_word) {
        lemma_grows_itself(c);
        let f = lemma_refresh(c, z, p, dst, low, gz);
        lemma_resume(c, n, m, kz, gz, end);
        let r29: u8 = 29;
        assert(f.x[r29 as int] == gz.x[r29 as int]);
        assert(kept(p, gz, f, dst));
        lemma_kept(p, m, gz, f, dst);
    } else {
        lemma_gone(c, n, m, kz, end, l, gz);
    }
}

/// A product of small integers is left where the destination is kept, tagged; a product that is no
/// small integer goes to the failure label. Nothing else that lives in a register or a slot changes.
/// The second factor is read again after the low word is parked in the destination's home, so it must
/// not be read from there: see [`law_shared_products_are_checked_otherwise`].
pub proof fn law_products_are_checked(
    s: St,
    p: Plan,
    dst: VReg,
    a: VReg,
    b: VReg,
    fail: BlockId,
    m: Cpu,
    va: int,
    vb: int,
)
    requires
        operable(p, s, m, dst, a, va, b, vb, fail),
        apart(p, dst, b),
    ensures
        match added(s, s.smi_mul(p, dst, a, b, fail), m) {
            Ctl::At(n) => is_smi(va * vb) && settled(p, n, dst, smi(va * vb)) && kept(p, m, n, dst),
            Ctl::To(l, n) => !is_smi(va * vb) && l == p.labels@[fail.0 as int] && kept(p, m, n, dst),
            _ => false,
        },
{
    lemma_product_run(s, p, dst, a, b, fail, m, va, vb);
    let v = va * (4 * vb);
    assert(v == 4 * (va * vb)) by (nonlinear_arith)
        requires
            v == va * (4 * vb),
    ;
    assert(-0x400_0000_0000_0000 * 0x1_0000_0000_0000_0000 <= va * vb <= 0x400_0000_0000_0000 * 0x1_0000_0000_0000_0000)
        by (nonlinear_arith)
        requires
            is_smi(va),
            is_smi(vb),
    ;
    lemma_tag(vb);
    lemma_product(v);
    assert(is_signed(v) <==> is_smi(va * vb));
}

/// Where the second factor lives in the destination's home, and no mirror serves it, the check of a
/// product reads the low word in the factor's place. Where it passes, the low word of the product is
/// left; else control goes to the failure label.
pub proof fn law_shared_products_are_checked_otherwise(
    s: St,
    p: Plan,
    dst: VReg,
    a: VReg,
    b: VReg,
    fail: BlockId,
    m: Cpu,
    va: int,
    vb: int,
)
    requires
        operable(p, s, m, dst, a, va, b, vb, fail),
        !apart(p, dst, b),
        unmirrored(p, b),
    ensures
        ({
            let low = smi(va * vb);
            match added(s, s.smi_mul(p, dst, a, b, fail), m) {
                Ctl::At(n) => passes(va, low, low) && settled(p, n, dst, low) && kept(p, m, n, dst),
                Ctl::To(l, n) => !passes(va, low, low) && l == p.labels@[fail.0 as int] && kept(p, m, n, dst),
                _ => false,
            }
        }),
{
    lemma_product_run(s, p, dst, a, b, fail, m, va, vb);
}

pub(crate) proof fn lemma_grows_product_end(s: St, p: Plan, dst: VReg, b: VReg, l: Label)
    requires
        s.code.labels.len() < u32::MAX,
    ensures
        grows(s.code, product_end(s, p, dst, b, l).code),
{
    let (r, t) = s.resolve(p, b, 17);
    let h = t.i3("smulh"@, spec_x(16), spec_x(16), Operand::Reg(r));
    let (low, u) = unpark(h, p, dst);
    let i = Insn::Op("smulh"@, seq![spec_x(16), spec_x(16), Operand::Reg(r)]);
    let i2 = Insn::Op("cmp"@, seq![spec_x(16), Operand::RegShift(spec_xr(low), Shift::Asr, 63)]);
    let y = u.code.with(i2);
    lemma_grows_resolve(s, p, b, 17);
    lemma_grows_by(t.code, i);
    lemma_grows_park(h, p, dst);
    lemma_grows_by(u.code, i2);
    lemma_grows_by(y, Insn::BCond(Cond::Ne, l));
    lemma_grows(s.code, t.code, h.code);
    lemma_grows(s.code, h.code, u.code);
    lemma_grows(s.code, u.code, y);
    lemma_grows(s.code, y, y.with(Insn::BCond(Cond::Ne, l)));
}

// ── Bits ────────────────────────────────────────────────────────────────

/// A bit operation on two words.
pub open spec fn combined(op: SmiOp, u: u64, w: u64) -> u64 {
    match op {
        SmiOp::And => u & w,
        SmiOp::Or => u | w,
        _ => u ^ w,
    }
}

pub(crate) proof fn lemma_combined(op: SmiOp, u: u64, w: u64)
    requires
        u & 3 == 0,
        w & 3 == 0,
    ensures
        combined(op, u, w) & 3 == 0,
{
    assert(u & 3 == 0 && w & 3 == 0 ==> (u & w) & 3 == 0 && (u | w) & 3 == 0 && (u ^ w) & 3 == 0) by (bit_vector);
}

/// The bits of two small integers are combined as they are, with their tags: the result is tagged as
/// a small integer, and is left where the destination is kept. Nothing else that lives in a register
/// or a slot changes.
#[verifier::spinoff_prover]
pub proof fn law_bits_stay_tagged(
    s: St,
    p: Plan,
    op: SmiOp,
    dst: VReg,
    a: VReg,
    b: VReg,
    fail: BlockId,
    m: Cpu,
    va: int,
    vb: int,
)
    requires
        op is And || op is Or || op is Xor,
        operable(p, s, m, dst, a, va, b, vb, fail),
    ensures
        match added(s, s.smi_simple(p, op, dst, a, b, fail), m) {
            Ctl::At(n) => {
                let w = combined(op, smi(va), smi(vb));
                w & 3 == 0 && settled(p, n, dst, w) && kept(p, m, n, dst)
            },
            _ => false,
        },
{
    let w = combined(op, smi(va), smi(vb));
    let l = p.labels@[fail.0 as int];
    let t = s.smi_simple(p, op, dst, a, b, fail);
    let c = t.code;
    let n = s.code.insns.len() as int;
    let (ra, s1) = s.resolve(p, a, 16);
    let (rb, s2) = s1.resolve(p, b, 17);
    let f = dest_direct(p, dst).num;
    assert(dest_direct(p, dst) == spec_xr(f));
    let u = s2.tag_check(p, a, ra, b, rb, fail);
    let z = u.i3(simple_name(op), spec_x(f), Operand::Reg(ra), Operand::Reg(rb));
    assert(t == z.commit(p, dst, spec_xr(f)));
    lemma_grows_commit(z, p, dst, f);
    lemma_grows_itself(c);
    lemma_at(u.code, Insn::Op(simple_name(op), seq![spec_x(f), Operand::Reg(ra), Operand::Reg(rb)]), c);
    lemma_grows_tag_check(s2, p, a, ra, b, rb, fail);
    lemma_grows(s2.code, u.code, c);
    let e = lemma_operands(c, s, p, dst, a, smi(va), b, smi(vb), fail, m);
    let j = s2.code.insns.len() as int;
    let k = u.code.insns.len() as int;
    lemma_length(s2.code, u.code);
    assert(c.labels[l.0 as int] == s2.code.labels[l.0 as int] && l.0 < c.labels.len()) by {
        reveal(grows);
    }
    assert(forall|q: int| j <= q < k ==> #[trigger] c.insns[q] == u.code.insns[q]) by {
        reveal(grows);
    }
    let fl = lemma_tag_check(c, j, e, e, s2, p, a, ra.num, va, b, rb.num, vb, fail);
    lemma_mnemonics();
    lemma_tag(va);
    lemma_tag(vb);
    lemma_combined(op, smi(va), smi(vb));
    lemma_next(c, j, e, k);
    lemma_finish(c, n, m, j, e, z, p, dst, f, w, l, true);
}

// ── Other operands ──────────────────────────────────────────────────────

/// A tag test that fails goes to the failure label and changes nothing but the flags.
#[verifier::spinoff_prover]
pub(crate) proof fn lemma_tag_fails(c: Code, s: St, p: Plan, a: VReg, ra: u8, wa: u64, b: VReg, rb: u8, wb: u64, fail: BlockId, m: Cpu) -> (e:
    Cpu)
    requires
        m.x.len() == 32,
        ra < 29,
        rb < 29,
        m.x[ra as int] == wa,
        m.x[rb as int] == wb,
        (wa & 3 != 0 && !p.smi_ok(a, s.pos)) || (wb & 3 != 0 && !p.smi_ok(b, s.pos)),
        grows(s.tag_check(p, a, spec_xr(ra), b, spec_xr(rb), fail).code, c),
        p.labels@[fail.0 as int].0 < c.labels.len(),
        c.labels[p.labels@[fail.0 as int].0 as int] matches Some(t) ==> t <= s.code.insns.len(),
    ensures
        run(
            c,
            s.code.insns.len() as int,
            m,
            s.tag_check(p, a, spec_xr(ra), b, spec_xr(rb), fail).code.insns.len() as int,
        ) == Ctl::To(p.labels@[fail.0 as int], e),
        e == (Cpu { f: e.f, ..m }),
{
    lemma_mnemonics();
    lemma_word(3);
    let l = p.labels@[fail.0 as int];
    let n = s.code.insns.len() as int;
    let u = s.tag_check(p, a, spec_xr(ra), b, spec_xr(rb), fail);
    let end = u.code.insns.len() as int;
    let test = |r: u8| Insn::Op("tst"@, seq![spec_x(r), spec_imm(3)]);
    let s1 = if p.smi_ok(a, s.pos) {
        s
    } else {
        s.i2("tst"@, spec_x(ra), spec_imm(3)).bc(Cond::Ne, l)
    };
    if !p.smi_ok(b, s.pos) {
        lemma_at(s1.code.with(test(rb)), Insn::BCond(Cond::Ne, l), c);
        lemma_at(s1.code, test(rb), c);
    }
    if !p.smi_ok(a, s.pos) {
        lemma_at(s.code.with(test(ra)), Insn::BCond(Cond::Ne, l), c);
        lemma_at(s.code, test(ra), c);
        lemma_next(c, n, m, n);
        lemma_next(c, n, m, n + 1);
    }
    let m1 = Cpu { f: tested(wa, 3), ..m };
    if !p.smi_ok(a, s.pos) && wa & 3 != 0 {
        assert(run(c, n, m, n + 2) == Ctl::To(l, m1));
        lemma_gone(c, n, m, n + 2, end, l, m1);
        m1
    } else {
        let g = if p.smi_ok(a, s.pos) {
            m
        } else {
            m1
        };
        let k = s1.code.insns.len() as int;
        assert(run(c, n, m, k) == Ctl::At(g));
        let e = Cpu { f: tested(wb, 3), ..m };
        lemma_next(c, n, m, k);
        assert(run(c, n, m, k + 1) == Ctl::At(e));
        lemma_next(c, n, m, k + 1);
        e
    }
}

/// The code of an arithmetic operation, tag tests and all.
pub open spec fn arithmetic(s: St, p: Plan, op: SmiOp, dst: VReg, a: VReg, b: VReg, fail: BlockId) -> St {
    match op {
        SmiOp::Mul => s.smi_mul(p, dst, a, b, fail),
        SmiOp::Div | SmiOp::Mod => s.smi_divmod(p, op, dst, a, b, fail),
        _ => s.smi_simple(p, op, dst, a, b, fail),
    }
}

pub(crate) proof fn lemma_grows_simple(s: St, p: Plan, op: SmiOp, dst: VReg, a: VReg, b: VReg, fail: BlockId)
    ensures
        grows(checked(s, p, a, b, fail).code, s.smi_simple(p, op, dst, a, b, fail).code),
{
    let l = p.labels@[fail.0 as int];
    let t = s.smi_simple(p, op, dst, a, b, fail);
    let (ra, s1) = s.resolve(p, a, 16);
    let (rb, s2) = s1.resolve(p, b, 17);
    let f = dest_direct(p, dst).num;
    let u = checked(s, p, a, b, fail);
    let i = Insn::Op(simple_name(op), seq![spec_x(f), Operand::Reg(ra), Operand::Reg(rb)]);
    let y = u.i3(simple_name(op), spec_x(f), Operand::Reg(ra), Operand::Reg(rb));
    let z = if op is Add || op is Sub {
        y.bc(Cond::Vs, l)
    } else {
        y
    };
    assert(t == z.commit(p, dst, spec_xr(f)));
    lemma_grows_by(u.code, i);
    lemma_grows_by(y.code, Insn::BCond(Cond::Vs, l));
    lemma_grows(u.code, y.code, y.bc(Cond::Vs, l).code);
    lemma_grows_commit(z, p, dst, f);
    lemma_grows(u.code, z.code, t.code);
}

pub(crate) proof fn lemma_grows_product(s: St, p: Plan, dst: VReg, a: VReg, b: VReg, fail: BlockId)
    requires
        s.code.labels.len() < u32::MAX - 8,
    ensures
        grows(checked(s, p, a, b, fail).code, s.smi_mul(p, dst, a, b, fail).code),
{
    let l = p.labels@[fail.0 as int];
    let t = s.smi_mul(p, dst, a, b, fail);
    let (xa, s1) = s.resolve(p, a, 16);
    let (xb, s2) = s1.resolve(p, b, 17);
    let u = checked(s, p, a, b, fail);
    let s3 = u.i3("asr"@, spec_x(16), Operand::Reg(xa), spec_imm(2));
    let (rb1, s4) = s3.resolve(p, b, 17);
    let s5 = s4.i3("mul"@, spec_x(17), spec_x(16), Operand::Reg(rb1));
    let s6 = park(s5, p, dst);
    let z = product_end(s6, p, dst, b, l);
    let low = unpark(z, p, dst).0;
    assert(t == z.refresh(p, dst, spec_xr(low)));
    lemma_grows_resolve(s, p, a, 16);
    lemma_grows_resolve(s1, p, b, 17);
    lemma_grows_tag_check(s2, p, a, xa, b, xb, fail);
    lemma_grows_by(u.code, Insn::Op("asr"@, seq![spec_x(16), Operand::Reg(xa), spec_imm(2)]));
    lemma_grows_resolve(s3, p, b, 17);
    lemma_grows_by(s4.code, Insn::Op("mul"@, seq![spec_x(17), spec_x(16), Operand::Reg(rb1)]));
    lemma_grows_park(s5, p, dst);
    lemma_grows_product_end(s6, p, dst, b, l);
    lemma_grows_refresh(z, p, dst, low);
    lemma_grows(u.code, s3.code, s4.code);
    lemma_grows(u.code, s4.code, s5.code);
    lemma_grows(u.code, s5.code, s6.code);
    lemma_grows(u.code, s6.code, z.code);
    lemma_grows(u.code, z.code, t.code);
}

pub(crate) proof fn lemma_grows_division(s: St, p: Plan, op: SmiOp, dst: VReg, a: VReg, b: VReg, fail: BlockId)
    requires
        op is Div || op is Mod,
        behind(s, p.labels@[fail.0 as int]),
    ensures
        grows(checked(s, p, a, b, fail).code, s.smi_divmod(p, op, dst, a, b, fail).code),
{
    let l = p.labels@[fail.0 as int];
    let t = s.smi_divmod(p, op, dst, a, b, fail);
    let (xa, s1) = s.resolve(p, a, 16);
    let (xb, s2) = s1.resolve(p, b, 17);
    let f = dest_direct(p, dst).num;
    let u = checked(s, p, a, b, fail);
    let z = division_core(s2, p, op, f, a, xa.num, b, xb.num, fail);
    assert(t == z.commit(p, dst, spec_xr(f)));
    lemma_grows_resolve(s, p, a, 16);
    lemma_grows_resolve(s1, p, b, 17);
    lemma_grows(s.code, s1.code, s2.code);
    assert(l.0 < s2.code.labels.len() && (s2.code.labels[l.0 as int] matches Some(q) ==> q <= s2.code.insns.len())) by {
        reveal(grows);
    }
    lemma_division_core(s2, p, op, f, a, xa.num, b, xb.num, fail);
    lemma_grows_commit(z, p, dst, f);
    lemma_grows(u.code, z.code, t.code);
}

/// An operand that is no small integer, and is not known to be one, sends an arithmetic operation to
/// its failure label. Nothing that lives in a register or a slot changes, the destination neither.
#[verifier::spinoff_prover]
pub proof fn law_other_operands_fail(
    s: St,
    p: Plan,
    op: SmiOp,
    dst: VReg,
    a: VReg,
    b: VReg,
    fail: BlockId,
    m: Cpu,
    wa: u64,
    wb: u64,
)
    requires
        words_operable(p, s, m, dst, a, wa, b, wb, fail),
        (wa & 3 != 0 && !p.smi_ok(a, s.pos)) || (wb & 3 != 0 && !p.smi_ok(b, s.pos)),
    ensures
        match added(s, arithmetic(s, p, op, dst, a, b, fail), m) {
            Ctl::To(l, n) => l == p.labels@[fail.0 as int] && quiet(p, m, n),
            _ => false,
        },
{
    let l = p.labels@[fail.0 as int];
    let t = arithmetic(s, p, op, dst, a, b, fail);
    let c = t.code;
    let n = s.code.insns.len() as int;
    let (xa, s1) = s.resolve(p, a, 16);
    let (xb, s2) = s1.resolve(p, b, 17);
    let u = checked(s, p, a, b, fail);
    if op is Mul {
        lemma_grows_product(s, p, dst, a, b, fail);
    } else if op is Div || op is Mod {
        lemma_grows_division(s, p, op, dst, a, b, fail);
    } else {
        lemma_grows_simple(s, p, op, dst, a, b, fail);
    }
    lemma_grows_tag_check(s2, p, a, xa, b, xb, fail);
    lemma_grows(s2.code, u.code, c);
    let e = lemma_operands(c, s, p, dst, a, wa, b, wb, fail, m);
    let j = s2.code.insns.len() as int;
    let k = u.code.insns.len() as int;
    let end = c.insns.len() as int;
    lemma_length(s2.code, u.code);
    lemma_length(u.code, c);
    assert(c.labels[l.0 as int] == s2.code.labels[l.0 as int] && l.0 < c.labels.len()) by {
        reveal(grows);
    }
    let g = lemma_tag_fails(c, s2, p, a, xa.num, wa, b, xb.num, wb, fail, e);
    lemma_gone(c, j, e, k, end, l, g);
    lemma_resume(c, n, m, j, e, end);
}

/// So does a shift: both of its operands are always tested.
#[verifier::spinoff_prover]
pub proof fn law_other_shift_operands_fail(
    s: St,
    p: Plan,
    dst: VReg,
    a: VReg,
    count: VReg,
    fail: BlockId,
    m: Cpu,
    wa: u64,
    wc: u64,
)
    requires
        words_operable(p, s, m, dst, a, wa, count, wc, fail),
        wa & 3 != 0 || wc & 3 != 0,
    ensures
        match added(s, s.smi_shift(p, dst, a, count, fail), m) {
            Ctl::To(l, n) => l == p.labels@[fail.0 as int] && quiet(p, m, n),
            _ => false,
        },
{
    let l = p.labels@[fail.0 as int];
    let t = s.smi_shift(p, dst, a, count, fail);
    let c = t.code;
    let n = s.code.insns.len() as int;
    let (xa, s1) = s.resolve(p, a, 16);
    let (xc, s2) = s1.resolve(p, count, 17);
    let f = dest(p, dst).num;
    let z = shift_core(s2, p, f, xa.num, xc.num, fail);
    assert(t == z.commit(p, dst, spec_xr(f)));
    lemma_grows_resolve(s, p, a, 16);
    lemma_grows_resolve(s1, p, count, 17);
    lemma_grows(s.code, s1.code, s2.code);
    assert(l.0 < s2.code.labels.len() && (s2.code.labels[l.0 as int] matches Some(q) ==> q <= s2.code.insns.len())) by {
        reveal(grows);
    }
    lemma_shift_core(s2, p, f, xa.num, xc.num, fail);
    lemma_grows_commit(z, p, dst, f);
    lemma_grows(s2.code, z.code, c);
    let e = lemma_operands(c, s, p, dst, a, wa, count, wc, fail, m);
    let j = s2.code.insns.len() as int;
    let end = c.insns.len() as int;
    let right = s2.code.next_label();
    let done = Label((s2.code.labels.len() + 1) as u32);
    lemma_shift_grown(z.code, c, j, f, xa.num, xc.num, l, right, done);
    lemma_length(z.code, c);
    lemma_resume(c, n, m, j, e, end);
    lemma_mnemonics();
    lemma_word(3);
    lemma_next(c, j, e, j);
    lemma_next(c, j, e, j + 1);
    let e1 = Cpu { f: tested(wa, 3), ..e };
    if wa & 3 != 0 {
        assert(run(c, j, e, j + 2) == Ctl::To(l, e1));
        lemma_gone(c, j, e, j + 2, end, l, e1);
    } else {
        assert(run(c, j, e, j + 2) == Ctl::At(e1));
        let e2 = Cpu { f: tested(wc, 3), ..e };
        lemma_next(c, j, e, j + 2);
        lemma_next(c, j, e, j + 3);
        assert(run(c, j, e, j + 4) == Ctl::To(l, e2));
        lemma_gone(c, j, e, j + 4, end, l, e2);
    }
}

} // verus!
