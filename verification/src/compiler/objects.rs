//! Stores into objects: elements and bytes, with their guards and their barrier.
use vstd::prelude::*;
#[allow(unused_imports)]
use crate::compiler::a64::{lemma_mnemonics, Cond, Operand, Reg};
#[allow(unused_imports)]
use crate::compiler::assembler::{spec_imm, spec_mem, spec_x, spec_xr, Code, Insn, Label, LiteralId};
#[allow(unused_imports)]
use crate::compiler::emitter::{spill_off, Plan, St};
#[allow(unused_imports)]
use crate::compiler::ir::{BlockId, Ir, PoolLit, VReg};
#[allow(unused_imports)]
use crate::compiler::lower::{cond_holds, Flags};
#[allow(unused_imports)]
use crate::compiler::machine::{
    added, behind, byte_written, class_word, difference, index_fits, is_index_guard, is_signed, is_smi, lemma_gone,
    lemma_index_guard_code, lemma_index_guard_run, lemma_next, lemma_quarter, lemma_resume, lemma_tag, lemma_word, run,
    signed, smi, tested, word, written, Cpu, Ctl,
};
#[allow(unused_imports)]
use crate::compiler::operands::{
    grows, kept, lemma_at, lemma_commit, lemma_grows, lemma_grows_commit, lemma_grows_itself, lemma_grows_resolve, lemma_kept,
    lemma_length, lemma_slot_at, lodged, quiet, ready, scratch, slot_at,
};
#[allow(unused_imports)]
use crate::compiler::outcomes::{
    clear_of_block, crosses, is_barrier, lemma_address, lemma_barrier, lemma_barrier_code, lemma_barrier_grown,
    lemma_guard_label, lemma_index, lemma_index_guard_grown, lemma_two, lit_word, noted, two_held,
};
#[allow(unused_imports)]
use crate::compiler::regalloc::{Assignment, SpillSlot};

verus! {

/// Whether a value is the word `w` in its register or its slot, whatever mirrors it.
pub open spec fn in_home(p: Plan, m: Cpu, v: VReg, w: u64) -> bool {
    match p.resident@[v.0 as int] {
        Some(r) => m.x[r as int] == w,
        None => match p.home(v) {
            Assignment::Reg(r) => m.x[r as int] == w,
            Assignment::Spill(slot) => (m.mem)(slot_at(m, slot)) == w,
        },
    }
}

/// Whether a value that is stored comes from its slot.
pub open spec fn from_slot(p: Plan, v: VReg) -> bool {
    p.resident@[v.0 as int] is None && p.home(v) is Spill
}

proof fn lemma_grows_value(s: St, p: Plan, v: VReg)
    ensures
        grows(s.code, s.resolve_value(p, v).1.code),
        s.resolve_value(p, v).1 == (St { code: s.resolve_value(p, v).1.code, ..s }),
        s.resolve_value(p, v).1.code.labels == s.code.labels,
{
    reveal(grows);
}

/// The value to be stored is brought into a register, past the address.
#[verifier::spinoff_prover]
proof fn lemma_value(c: Code, s: St, p: Plan, v: VReg, w: u64, g: Cpu) -> (h: Cpu)
    requires
        p.ok(),
        g.x.len() == 32,
        g.x[29] >= 8 * p.frame_slots,
        lodged(p, v),
        in_home(p, g, v, w),
        grows(s.resolve_value(p, v).1.code, c),
    ensures
        ({
            let (rv, t) = s.resolve_value(p, v);
            &&& run(c, s.code.insns.len() as int, g, t.code.insns.len() as int) == Ctl::At(h)
            &&& rv == spec_xr(rv.num)
            &&& rv.num < 29 && rv.num != 17 && rv.num != 19 && rv.num != 20
            &&& rv.num == 16 <==> from_slot(p, v)
            &&& h.x[rv.num as int] == w
            &&& h.x.len() == 32
            &&& h.mem == g.mem
            &&& forall|r: int| 0 <= r < 32 && r != 20 && !(r == 16 && from_slot(p, v)) ==> #[trigger] h.x[r] == g.x[r]
        }),
{
    lemma_mnemonics();
    let n = s.code.insns.len() as int;
    if from_slot(p, v) {
        let slot = p.home(v)->Spill_0;
        lemma_slot_at(g, slot);
        let off = spill_off(slot);
        if off >= -256 {
            lemma_at(s.code, Insn::Op("ldr"@, seq![spec_x(16), spec_mem(29, off)]), c);
            lemma_next(c, n, g, n);
            Cpu { x: g.x.update(16, w), ..g }
        } else {
            let s1 = s.i3("sub"@, spec_x(20), spec_x(29), spec_imm((-off) as i64));
            lemma_at(s1.code, Insn::Op("ldr"@, seq![spec_x(16), spec_mem(20, 0)]), c);
            lemma_at(s.code, Insn::Op("sub"@, seq![spec_x(20), spec_x(29), spec_imm((-off) as i64)]), c);
            let g1 = Cpu { x: g.x.update(20, word(slot_at(g, slot))), ..g };
            lemma_next(c, n, g, n);
            assert(run(c, n, g, n + 1) == Ctl::At(g1));
            lemma_next(c, n, g, n + 1);
            Cpu { x: g1.x.update(16, w), ..g1 }
        }
    } else {
        g
    }
}

/// What a store into an object leaves: the memory as said, but for the slot of the destination, and the
/// registers as they were, but for the destination's.
pub open spec fn stored_as(p: Plan, m: Cpu, n: Cpu, dst: VReg, mem: spec_fn(int) -> u64) -> bool {
    &&& n.x.len() == m.x.len()
    &&& forall|r: u8|
        r < 32 && !scratch(r) && !p.r1a_free@.contains(r) && p.resident@[dst.0 as int] != Some(r) && p.home(dst)
            != Assignment::Reg(r) ==> #[trigger] n.x[r as int] == m.x[r as int]
    &&& forall|a: int|
        (p.home(dst) matches Assignment::Spill(slot) ==> a <= slot_at(m, slot) - 8 || slot_at(m, slot) + 8 <= a)
            ==> #[trigger] (n.mem)(a) == mem(a)
}

/// The code of an element's store behind its guards.
pub open spec fn store_tail(u: St, p: Plan, dst: VReg, val: VReg, ra: u8, ri: u8) -> St {
    let y2 = u.i3("add"@, spec_x(19), spec_x(ra), spec_x(ri)).i3("add"@, spec_x(19), spec_x(19), spec_x(ri));
    let (rv, y3) = y2.resolve_value(p, val);
    y3.i2("stur"@, Operand::Reg(rv), spec_mem(19, 15)).card_barrier(spec_xr(ra), rv, spec_x(19), 15).commit(p, dst, rv)
}

proof fn lemma_grows_store_tail(u: St, p: Plan, dst: VReg, val: VReg, ra: u8, ri: u8)
    requires
        u.code.labels.len() < u32::MAX,
    ensures
        grows(u.code, store_tail(u, p, dst, val, ra, ri).code),
{
    let y1 = u.i3("add"@, spec_x(19), spec_x(ra), spec_x(ri));
    let y2 = y1.i3("add"@, spec_x(19), spec_x(19), spec_x(ri));
    let (rv, y3) = y2.resolve_value(p, val);
    assert(rv == spec_xr(rv.num));
    let y4 = y3.i2("stur"@, Operand::Reg(rv), spec_mem(19, 15));
    let y5 = y4.card_barrier(spec_xr(ra), rv, spec_x(19), 15);
    let z = y5.commit(p, dst, rv).code;
    lemma_grows_value(y2, p, val);
    lemma_barrier_code(y4, ra, rv.num, 19, 15);
    lemma_grows_commit(y5, p, dst, rv.num);
    lemma_grows(y4.code, y5.code, z);
    lemma_at(y3.code, Insn::Op("stur"@, seq![Operand::Reg(rv), spec_mem(19, 15)]), z);
    lemma_grows(y2.code, y3.code, z);
    lemma_at(y1.code, Insn::Op("add"@, seq![spec_x(19), spec_x(19), spec_x(ri)]), z);
    lemma_at(u.code, Insn::Op("add"@, seq![spec_x(19), spec_x(ra), spec_x(ri)]), z);
}

/// The store itself, its barrier, and the destination.
#[verifier::spinoff_prover]
#[verifier::rlimit(60)]
proof fn lemma_store_tail(
    c: Code,
    u: St,
    p: Plan,
    dst: VReg,
    val: VReg,
    ra: u8,
    ri: u8,
    wa: u64,
    wi: u64,
    i: int,
    v: u64,
    g: Cpu,
) -> (n: Cpu)
    requires
        ready(p, u, g),
        !p.r1a_free@.contains(28),
        lodged(p, dst),
        lodged(p, val),
        in_home(p, g, val, v),
        u.code.labels.len() < u32::MAX,
        ra < 29,
        ra != 19,
        ra != 20,
        ra != 16 || !from_slot(p, val),
        ri < 29,
        ri != 19,
        ri != 20,
        g.x[ra as int] == wa,
        g.x[ri as int] == wi,
        wi == 4 * i,
        signed(wi) == wi,
        1 <= i,
        wa + 8 * i + 16 < 0x1_0000_0000_0000_0000,
        clear_of_block(g, wa + 15 + 8 * i),
        (g.mem)(g.x[28] + 24) + (wa + 15 + 8 * i) / 512 < 0x1_0000_0000_0000_0000,
        grows(store_tail(u, p, dst, val, ra, ri).code, c),
    ensures
        ({
            let place = wa + 15 + 8 * i;
            let after = written(g.mem, place, v);
            &&& run(c, u.code.insns.len() as int, g, store_tail(u, p, dst, val, ra, ri).code.insns.len() as int) == Ctl::At(n)
            &&& stored_as(
                p,
                g,
                n,
                dst,
                if crosses(g, wa, v) {
                    noted(g, after, place)
                } else {
                    after
                },
            )
        }),
{
    lemma_mnemonics();
    let k = u.code.insns.len() as int;
    let y1 = u.i3("add"@, spec_x(19), spec_x(ra), spec_x(ri));
    let y2 = y1.i3("add"@, spec_x(19), spec_x(19), spec_x(ri));
    let (rv, y3) = y2.resolve_value(p, val);
    assert(rv == spec_xr(rv.num));
    let y4 = y3.i2("stur"@, Operand::Reg(rv), spec_mem(19, 15));
    let y5 = y4.card_barrier(spec_xr(ra), rv, spec_x(19), 15);
    let t = y5.commit(p, dst, rv);
    lemma_grows_value(y2, p, val);
    lemma_barrier_code(y4, ra, rv.num, 19, 15);
    lemma_grows_commit(y5, p, dst, rv.num);
    lemma_grows(y5.code, t.code, c);
    lemma_grows(y4.code, y5.code, c);
    lemma_at(y3.code, Insn::Op("stur"@, seq![Operand::Reg(rv), spec_mem(19, 15)]), c);
    lemma_grows(y2.code, y3.code, c);
    lemma_at(y1.code, Insn::Op("add"@, seq![spec_x(19), spec_x(19), spec_x(ri)]), c);
    lemma_at(u.code, Insn::Op("add"@, seq![spec_x(19), spec_x(ra), spec_x(ri)]), c);
    lemma_length(y2.code, y3.code);
    lemma_length(y5.code, t.code);
    let place = wa + 15 + 8 * i;
    lemma_address(wa, wi as int);
    let a1 = (wa + wi) as u64;
    let g1 = Cpu { x: g.x.update(19, a1), ..g };
    lemma_next(c, k, g, k);
    assert(run(c, k, g, k + 1) == Ctl::At(g1));
    lemma_address(a1, wi as int);
    let a2 = (wa + wi + wi) as u64;
    let g2 = Cpu { x: g1.x.update(19, a2), ..g1 };
    lemma_next(c, k, g, k + 1);
    assert(run(c, k, g, k + 2) == Ctl::At(g2));
    assert(in_home(p, g2, val, v));
    let g3 = lemma_value(c, y2, p, val, v, g2);
    let k3 = y3.code.insns.len() as int;
    lemma_resume(c, k, g, k + 2, g2, k3);
    let after = written(g.mem, place, v);
    let g4 = Cpu { mem: after, ..g3 };
    assert(g3.x[19] == a2);
    assert(a2 + 15 == place);
    lemma_next(c, k, g, k3);
    assert(run(c, k, g, k3 + 1) == Ctl::At(g4));
    let k4 = k3 + 1;
    assert(y4.code.insns.len() == k4);
    lemma_barrier_grown(y5.code, c, k4, ra, rv.num, 19, 15, y4.code.next_label());
    assert(g4.x[28] == g.x[28]);
    let g5 = lemma_barrier(c, k4, ra, rv.num, 19, 15, y4.code.next_label(), g4, g, place);
    lemma_resume(c, k, g, k4, g4, k4 + 12);
    let r29: u8 = 29;
    assert(g5.x[r29 as int] == g.x[r29 as int]);
    assert(ready(p, y5, g5));
    let n = lemma_commit(c, y5, p, dst, rv.num, g5);
    lemma_resume(c, k, g, k4 + 12, g5, t.code.insns.len() as int);
    assert forall|r: u8|
        r < 32 && !scratch(r) && !p.r1a_free@.contains(r) && p.resident@[dst.0 as int] != Some(r) && p.home(dst)
            != Assignment::Reg(r) implies #[trigger] n.x[r as int] == g.x[r as int] by {
        assert(n.x[r as int] == g5.x[r as int]);
        assert(g5.x[r as int] == g4.x[r as int]);
    }
    n
}

/// An element is written at its place, and its card is dirtied exactly where an old object comes to hold
/// a young one; nothing else in memory changes but the destination's slot. An access that is out of
/// range, or not to an object of the class, goes to the failure block. Where the value is stored from its
/// slot, the array does not come through the same scratch register, which the barrier would read.
#[verifier::spinoff_prover]
#[verifier::rlimit(60)]
pub proof fn law_elements_are_written(
    s: St,
    p: Plan,
    dst: VReg,
    arr: VReg,
    idx: VReg,
    val: VReg,
    klass: PoolLit,
    fail: BlockId,
    following: Option<BlockId>,
    m: Cpu,
    wa: u64,
    wi: u64,
    v: u64,
    size: int,
)
    requires
        two_held(p, s, m, arr, wa, idx, wi),
        lodged(p, dst),
        lodged(p, val),
        in_home(p, m, val, v),
        !p.r1a_free@.contains(28),
        s.resolve(p, arr, 16).0.num != 16 || !from_slot(p, val),
        behind(s, p.labels@[fail.0 as int]),
        is_smi(size),
        0 <= size,
        wa & 3 == 1 && class_word(m, wa) == lit_word(p, s, klass) ==> (m.mem)(wa - 1 + 16) == smi(size) && wa + 8 * size + 16
            < 0x1_0000_0000_0000_0000,
        forall|i: int|
            1 <= i <= size ==> #[trigger] clear_of_block(m, wa + 15 + 8 * i) && (m.mem)(m.x[28] + 24) + (wa + 15 + 8 * i) / 512
                < 0x1_0000_0000_0000_0000,
    ensures
        ({
            let i = signed(wi) / 4;
            let fits = wa & 3 == 1 && (m.mem)(wa - 1 + 8) == lit_word(p, s, klass) && wi & 3 == 0 && 1 <= i <= size;
            let place = wa - 1 + 24 + 8 * (i - 1);
            let after = written(m.mem, place, v);
            match added(s, s.emit_op(p, Ir::ArrayAtPut { dst, arr, idx, val, klass, fail }, following), m) {
                Ctl::At(n) => fits && stored_as(
                    p,
                    m,
                    n,
                    dst,
                    if crosses(m, wa, v) {
                        noted(m, after, place)
                    } else {
                        after
                    },
                ),
                Ctl::To(l, n) => !fits && l == p.labels@[fail.0 as int] && n.mem == m.mem,
                _ => false,
            }
        }),
{
    reveal(St::emit_op);
    let t = s.emit_op(p, Ir::ArrayAtPut { dst, arr, idx, val, klass, fail }, following);
    let c = t.code;
    let n = s.code.insns.len() as int;
    let l = p.labels@[fail.0 as int];
    let (ra, s1) = s.resolve(p, arr, 16);
    let (ri, s2) = s1.resolve(p, idx, 17);
    let j = s2.code.insns.len() as int;
    assert(ra == spec_xr(ra.num) && ri == spec_xr(ri.num));
    let u = s2.indexed_guards(ra, ri, p.lit(klass), 15, l);
    assert(t == store_tail(u, p, dst, val, ra.num, ri.num));
    lemma_grows_resolve(s, p, arr, 16);
    lemma_grows_resolve(s1, p, idx, 17);
    assert(grows(s2.code, u.code) && u.code.labels == s2.code.labels) by {
        reveal(grows);
    }
    lemma_grows_store_tail(u, p, dst, val, ra.num, ri.num);
    lemma_grows_itself(c);
    lemma_grows(s2.code, u.code, c);
    let e = lemma_two(c, s, p, arr, wa, idx, wi, m);
    lemma_guard_label(s, s2, c, l);
    assert(l.0 < s2.code.labels.len() && s2.code.labels[l.0 as int] == c.labels[l.0 as int]) by {
        reveal(grows);
    }
    lemma_index_guard_code(s2, ra.num, ri.num, p.lit(klass), 15, l);
    lemma_index_guard_grown(u.code, c, j, ra.num, ri.num, p.lit(klass), 15, l);
    lemma_length(s2.code, c);
    lemma_length(u.code, c);
    let i = signed(wi) / 4;
    assert(wa - 1 + 16 == wa + 15 && wa - 1 + 8 == wa + 7 && wa - 1 + 24 + 8 * (i - 1) == wa + 15 + 8 * i);
    lemma_index_guard_run(c, j, ra.num, ri.num, p.lit(klass), 15, l, e, size);
    let k = j + 13;
    let end = c.insns.len() as int;
    lemma_resume(c, n, m, j, e, end);
    let r28: u8 = 28;
    let r29: u8 = 29;
    assert(e.x[r28 as int] == m.x[r28 as int]);
    assert(e.x[r29 as int] == m.x[r29 as int]);
    match run(c, j, e, k) {
        Ctl::At(g) => {
            lemma_index(wi, size);
            assert(clear_of_block(m, wa + 15 + 8 * i));
            assert(in_home(p, e, val, v)) by {
                lemma_home_kept(p, m, e, val, v);
            }
            assert(ready(p, u, g));
            let h = lemma_store_tail(c, u, p, dst, val, ra.num, ri.num, wa, wi, i, v, g);
            lemma_resume(c, j, e, k, g, end);
            assert forall|r: u8|
                r < 32 && !scratch(r) && !p.r1a_free@.contains(r) && p.resident@[dst.0 as int] != Some(r) && p.home(dst)
                    != Assignment::Reg(r) implies #[trigger] h.x[r as int] == m.x[r as int] by {
                assert(h.x[r as int] == g.x[r as int]);
                assert(g.x[r as int] == e.x[r as int]);
            }
        },
        Ctl::To(to, g) => {
            lemma_gone(c, j, e, k, end, l, g);
        },
        _ => {},
    }
}

/// A value's home is as it was where only scratch and spare registers have changed.
proof fn lemma_home_kept(p: Plan, m: Cpu, e: Cpu, v: VReg, w: u64)
    requires
        lodged(p, v),
        in_home(p, m, v, w),
        quiet(p, m, e),
        m.x.len() == 32,
        forall|r: u8| #[trigger] p.r1a_free@.contains(r) ==> r < 29 && !scratch(r),
    ensures
        in_home(p, e, v, w),
{
    let r29: u8 = 29;
    assert(e.x[r29 as int] == m.x[r29 as int]);
}

// ── Bytes ───────────────────────────────────────────────────────────────

/// The code of a byte's store behind its guards.
pub open spec fn byte_tail(u: St, p: Plan, dst: VReg, val: VReg, ra: u8, ri: u8, to: i64, l: Label) -> St {
    let y2 = u.i3("asr"@, spec_x(19), spec_x(ri), spec_imm(2)).i3("add"@, spec_x(19), spec_x(19), spec_x(ra));
    let (rv, y3) = y2.resolve_value(p, val);
    y3.i2("tst"@, Operand::Reg(rv), spec_imm(3)).bc(Cond::Ne, l).i2("cmp"@, Operand::Reg(rv), spec_imm(1020)).bc(
        Cond::Hi,
        l,
    ).i3("asr"@, spec_x(20), Operand::Reg(rv), spec_imm(2)).i2("sturb"@, spec_x(20), spec_mem(19, to)).commit(p, dst, rv)
}

proof fn lemma_byte_tail_code(u: St, p: Plan, dst: VReg, val: VReg, ra: u8, ri: u8, to: i64, l: Label, c: Code)
    requires
        grows(byte_tail(u, p, dst, val, ra, ri, to, l).code, c),
    ensures
        ({
            let y1 = u.i3("asr"@, spec_x(19), spec_x(ri), spec_imm(2));
            let y2 = y1.i3("add"@, spec_x(19), spec_x(19), spec_x(ra));
            let (rv, y3) = y2.resolve_value(p, val);
            let k = u.code.insns.len() as int;
            let k3 = y3.code.insns.len() as int;
            let y9 = y3.i2("tst"@, Operand::Reg(rv), spec_imm(3)).bc(Cond::Ne, l).i2(
                "cmp"@,
                Operand::Reg(rv),
                spec_imm(1020),
            ).bc(Cond::Hi, l).i3("asr"@, spec_x(20), Operand::Reg(rv), spec_imm(2)).i2(
                "sturb"@,
                spec_x(20),
                spec_mem(19, to),
            );
            &&& grows(u.code, c)
            &&& grows(y3.code, c)
            &&& k + 2 <= k3
            &&& c.insns[k] == Insn::Op("asr"@, seq![spec_x(19), spec_x(ri), spec_imm(2)])
            &&& c.insns[k + 1] == Insn::Op("add"@, seq![spec_x(19), spec_x(19), spec_x(ra)])
            &&& c.insns[k3] == Insn::Op("tst"@, seq![Operand::Reg(rv), spec_imm(3)])
            &&& c.insns[k3 + 1] == Insn::BCond(Cond::Ne, l)
            &&& c.insns[k3 + 2] == Insn::Op("cmp"@, seq![Operand::Reg(rv), spec_imm(1020)])
            &&& c.insns[k3 + 3] == Insn::BCond(Cond::Hi, l)
            &&& c.insns[k3 + 4] == Insn::Op("asr"@, seq![spec_x(20), Operand::Reg(rv), spec_imm(2)])
            &&& c.insns[k3 + 5] == Insn::Op("sturb"@, seq![spec_x(20), spec_mem(19, to)])
            &&& y9.code.insns.len() == k3 + 6
            &&& y9 == (St { code: y9.code, ..u })
            &&& byte_tail(u, p, dst, val, ra, ri, to, l) == y9.commit(p, dst, rv)
            &&& y9.code.insns.len() <= c.insns.len()
            &&& rv == spec_xr(rv.num)
        }),
{
    let y1 = u.i3("asr"@, spec_x(19), spec_x(ri), spec_imm(2));
    let y2 = y1.i3("add"@, spec_x(19), spec_x(19), spec_x(ra));
    let (rv, y3) = y2.resolve_value(p, val);
    assert(rv == spec_xr(rv.num));
    let i4 = Insn::Op("tst"@, seq![Operand::Reg(rv), spec_imm(3)]);
    let i6 = Insn::Op("cmp"@, seq![Operand::Reg(rv), spec_imm(1020)]);
    let i8 = Insn::Op("asr"@, seq![spec_x(20), Operand::Reg(rv), spec_imm(2)]);
    let i9 = Insn::Op("sturb"@, seq![spec_x(20), spec_mem(19, to)]);
    let y9 = y3.i2("tst"@, Operand::Reg(rv), spec_imm(3)).bc(Cond::Ne, l).i2("cmp"@, Operand::Reg(rv), spec_imm(1020)).bc(
        Cond::Hi,
        l,
    ).i3("asr"@, spec_x(20), Operand::Reg(rv), spec_imm(2)).i2("sturb"@, spec_x(20), spec_mem(19, to));
    let z4 = y3.code.with(i4);
    let z5 = z4.with(Insn::BCond(Cond::Ne, l));
    let z6 = z5.with(i6);
    let z7 = z6.with(Insn::BCond(Cond::Hi, l));
    let z8 = z7.with(i8);
    assert(y9.code == z8.with(i9));
    lemma_grows_value(y2, p, val);
    lemma_grows_commit(y9, p, dst, rv.num);
    lemma_grows(y9.code, y9.commit(p, dst, rv).code, c);
    lemma_length(y9.code, c);
    lemma_at(z8, i9, c);
    lemma_at(z7, i8, c);
    lemma_at(z6, Insn::BCond(Cond::Hi, l), c);
    lemma_at(z5, i6, c);
    lemma_at(z4, Insn::BCond(Cond::Ne, l), c);
    lemma_at(y3.code, i4, c);
    lemma_grows(y2.code, y3.code, c);
    lemma_length(y2.code, y3.code);
    lemma_at(y1.code, Insn::Op("add"@, seq![spec_x(19), spec_x(19), spec_x(ra)]), c);
    lemma_at(u.code, Insn::Op("asr"@, seq![spec_x(19), spec_x(ri), spec_imm(2)]), c);
}

/// The store of a byte, and the destination; a value that is no byte goes to the failure label.
#[verifier::spinoff_prover]
#[verifier::rlimit(60)]
proof fn lemma_byte_tail(
    c: Code,
    u: St,
    p: Plan,
    dst: VReg,
    val: VReg,
    ra: u8,
    ri: u8,
    to: i64,
    l: Label,
    wa: u64,
    wi: u64,
    i: int,
    v: u64,
    g: Cpu,
)
    requires
        ready(p, u, g),
        lodged(p, dst),
        lodged(p, val),
        in_home(p, g, val, v),
        ra < 29,
        ra != 19,
        ra != 20,
        ri < 29,
        ri != 19,
        ri != 20,
        g.x[ra as int] == wa,
        g.x[ri as int] == wi,
        wi == 4 * i,
        signed(wi) == wi,
        1 <= i,
        is_smi(i),
        wa + i < 0x1_0000_0000_0000_0000,
        l.0 < c.labels.len(),
        c.labels[l.0 as int] matches Some(t) ==> t <= u.code.insns.len(),
        grows(byte_tail(u, p, dst, val, ra, ri, to, l).code, c),
    ensures
        match run(c, u.code.insns.len() as int, g, byte_tail(u, p, dst, val, ra, ri, to, l).code.insns.len() as int) {
            Ctl::At(n) => v & 3 == 0 && v <= 1020 && stored_as(
                p,
                g,
                n,
                dst,
                byte_written(g.mem, wa + i + to, (v / 4) as u64),
            ),
            Ctl::To(t, n) => !(v & 3 == 0 && v <= 1020) && t == l && n.mem == g.mem,
            _ => false,
        },
{
    lemma_mnemonics();
    let k = u.code.insns.len() as int;
    let y1 = u.i3("asr"@, spec_x(19), spec_x(ri), spec_imm(2));
    let y2 = y1.i3("add"@, spec_x(19), spec_x(19), spec_x(ra));
    let (rv, y3) = y2.resolve_value(p, val);
    let y9 = y3.i2("tst"@, Operand::Reg(rv), spec_imm(3)).bc(Cond::Ne, l).i2("cmp"@, Operand::Reg(rv), spec_imm(1020)).bc(
        Cond::Hi,
        l,
    ).i3("asr"@, spec_x(20), Operand::Reg(rv), spec_imm(2)).i2("sturb"@, spec_x(20), spec_mem(19, to));
    lemma_byte_tail_code(u, p, dst, val, ra, ri, to, l, c);
    let t = byte_tail(u, p, dst, val, ra, ri, to, l);
    let end = t.code.insns.len() as int;
    lemma_grows_commit(y9, p, dst, rv.num);
    lemma_length(y9.code, t.code);
    lemma_quarter(wi, 2);
    lemma_word(2);
    lemma_word(3);
    lemma_word(1020);
    lemma_word(i);
    let g1 = Cpu { x: g.x.update(19, word(i)), ..g };
    lemma_next(c, k, g, k);
    assert(run(c, k, g, k + 1) == Ctl::At(g1));
    lemma_address(wa, i);
    let a = (wa + i) as u64;
    let g2 = Cpu { x: g1.x.update(19, a), ..g1 };
    lemma_next(c, k, g, k + 1);
    assert(run(c, k, g, k + 2) == Ctl::At(g2));
    assert(in_home(p, g2, val, v));
    let g3 = lemma_value(c, y2, p, val, v, g2);
    let k3 = y3.code.insns.len() as int;
    lemma_resume(c, k, g, k + 2, g2, k3);
    let g4 = Cpu { f: tested(v, 3), ..g3 };
    lemma_next(c, k, g, k3);
    assert(run(c, k, g, k3 + 1) == Ctl::At(g4));
    lemma_next(c, k, g, k3 + 1);
    if v & 3 != 0 {
        assert(run(c, k, g, k3 + 2) == Ctl::To(l, g4));
        lemma_gone(c, k, g, k3 + 2, end, l, g4);
    } else {
        let g5 = Cpu { f: difference(v, 1020), ..g3 };
        lemma_next(c, k, g, k3 + 2);
        assert(run(c, k, g, k3 + 3) == Ctl::At(g5));
        lemma_next(c, k, g, k3 + 3);
        if v > 1020 {
            assert(run(c, k, g, k3 + 4) == Ctl::To(l, g5));
            lemma_gone(c, k, g, k3 + 4, end, l, g5);
        } else {
            assert(run(c, k, g, k3 + 4) == Ctl::At(g5));
            lemma_quarter(v, 2);
            let byte = (v / 4) as u64;
            lemma_word(v as int / 4);
            let g6 = Cpu { x: g5.x.update(20, byte), ..g5 };
            lemma_next(c, k, g, k3 + 4);
            assert(run(c, k, g, k3 + 5) == Ctl::At(g6));
            assert(byte % 256 == byte);
            assert(g6.x[19] == a);
            let g7 = Cpu { mem: byte_written(g.mem, wa + i + to, byte), ..g6 };
            lemma_next(c, k, g, k3 + 5);
            assert(run(c, k, g, k3 + 6) == Ctl::At(g7));
            let r29: u8 = 29;
            assert(g7.x[r29 as int] == g.x[r29 as int]);
            assert(ready(p, y9, g7));
            let n = lemma_commit(c, y9, p, dst, rv.num, g7);
            lemma_resume(c, k, g, k3 + 6, g7, end);
            assert forall|r: u8|
                r < 32 && !scratch(r) && !p.r1a_free@.contains(r) && p.resident@[dst.0 as int] != Some(r) && p.home(dst)
                    != Assignment::Reg(r) implies #[trigger] n.x[r as int] == g.x[r as int] by {
                assert(n.x[r as int] == g7.x[r as int]);
            }
        }
    }
}

/// A byte is written at its place, if the value is a small integer from 0 to 255, and nowhere else but the
/// destination's slot. Any other value, and an access that is out of range or not to an object of the
/// class, goes to the failure block, and writes nothing.
#[verifier::spinoff_prover]
#[verifier::rlimit(60)]
pub proof fn law_bytes_are_written(
    s: St,
    p: Plan,
    dst: VReg,
    obj: VReg,
    idx: VReg,
    val: VReg,
    klass: PoolLit,
    len_off: i32,
    tail_off: i32,
    fail: BlockId,
    following: Option<BlockId>,
    m: Cpu,
    wa: u64,
    wi: u64,
    v: u64,
    size: int,
)
    requires
        two_held(p, s, m, obj, wa, idx, wi),
        lodged(p, dst),
        lodged(p, val),
        in_home(p, m, val, v),
        behind(s, p.labels@[fail.0 as int]),
        is_smi(size),
        0 <= size,
        i32::MIN < len_off,
        i32::MIN + 1 < tail_off,
        wa & 3 == 1 && class_word(m, wa) == lit_word(p, s, klass) ==> (m.mem)(wa - 1 + len_off) == smi(size) && wa + size
            < 0x1_0000_0000_0000_0000,
    ensures
        ({
            let i = signed(wi) / 4;
            let fits = wa & 3 == 1 && (m.mem)(wa - 1 + 8) == lit_word(p, s, klass) && wi & 3 == 0 && 1 <= i <= size;
            let byte = v & 3 == 0 && v <= 4 * 255;
            let op = Ir::ByteAtPut { dst, obj, idx, val, klass, len_off, tail_off, fail };
            match added(s, s.emit_op(p, op, following), m) {
                Ctl::At(n) => fits && byte && stored_as(
                    p,
                    m,
                    n,
                    dst,
                    byte_written(m.mem, wa - 1 + tail_off + (i - 1), (v / 4) as u64),
                ),
                Ctl::To(l, n) => !(fits && byte) && l == p.labels@[fail.0 as int] && n.mem == m.mem,
                _ => false,
            }
        }),
{
    reveal(St::emit_op);
    let op = Ir::ByteAtPut { dst, obj, idx, val, klass, len_off, tail_off, fail };
    let t = s.emit_op(p, op, following);
    let c = t.code;
    let n = s.code.insns.len() as int;
    let l = p.labels@[fail.0 as int];
    let (ra, s1) = s.resolve(p, obj, 16);
    let (ri, s2) = s1.resolve(p, idx, 17);
    let j = s2.code.insns.len() as int;
    assert(ra == spec_xr(ra.num) && ri == spec_xr(ri.num));
    let lo = (len_off - 1) as i64;
    let to = (tail_off - 2) as i64;
    let u = s2.indexed_guards(ra, ri, p.lit(klass), lo, l);
    assert(t == byte_tail(u, p, dst, val, ra.num, ri.num, to, l));
    lemma_grows_resolve(s, p, obj, 16);
    lemma_grows_resolve(s1, p, idx, 17);
    assert(grows(s2.code, u.code) && u.code.labels == s2.code.labels) by {
        reveal(grows);
    }
    lemma_grows_itself(c);
    lemma_byte_tail_code(u, p, dst, val, ra.num, ri.num, to, l, c);
    lemma_grows(s2.code, u.code, c);
    let e = lemma_two(c, s, p, obj, wa, idx, wi, m);
    lemma_guard_label(s, s2, c, l);
    assert(l.0 < s2.code.labels.len() && s2.code.labels[l.0 as int] == c.labels[l.0 as int]) by {
        reveal(grows);
    }
    lemma_index_guard_code(s2, ra.num, ri.num, p.lit(klass), lo, l);
    lemma_index_guard_grown(u.code, c, j, ra.num, ri.num, p.lit(klass), lo, l);
    lemma_length(s2.code, c);
    lemma_length(u.code, c);
    let i = signed(wi) / 4;
    assert(wa - 1 + 8 == wa + 7 && wa - 1 + len_off == wa + lo && wa - 1 + tail_off + (i - 1) == wa + i + to);
    lemma_index_guard_run(c, j, ra.num, ri.num, p.lit(klass), lo, l, e, size);
    let k = j + 13;
    let end = c.insns.len() as int;
    lemma_resume(c, n, m, j, e, end);
    let r29: u8 = 29;
    assert(e.x[r29 as int] == m.x[r29 as int]);
    match run(c, j, e, k) {
        Ctl::At(g) => {
            lemma_index(wi, size);
            assert(in_home(p, e, val, v)) by {
                lemma_home_kept(p, m, e, val, v);
            }
            assert(ready(p, u, g));
            lemma_byte_tail(c, u, p, dst, val, ra.num, ri.num, to, l, wa, wi, i, v, g);
            lemma_resume(c, j, e, k, g, end);
            match run(c, k, g, end) {
                Ctl::At(h) => {
                    assert forall|r: u8|
                        r < 32 && !scratch(r) && !p.r1a_free@.contains(r) && p.resident@[dst.0 as int] != Some(r)
                            && p.home(dst) != Assignment::Reg(r) implies #[trigger] h.x[r as int] == m.x[r as int] by {
                        assert(h.x[r as int] == g.x[r as int]);
                        assert(g.x[r as int] == e.x[r as int]);
                    }
                },
                _ => {},
            }
        },
        Ctl::To(at, g) => {
            lemma_gone(c, j, e, k, end, l, g);
        },
        _ => {},
    }
}

} // verus!
