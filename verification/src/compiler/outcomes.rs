//! What the lowered instructions do: comparisons, guards, accesses, moves and allocation, on the
//! machine and its memory.
//!
//! The laws speak of the code of an instruction as it is emitted, and of what it leaves in registers,
//! in the frame and in objects.
use vstd::prelude::*;
#[allow(unused_imports)]
use vstd::arithmetic::power2::*;
#[allow(unused_imports)]
use crate::compiler::a64::{lemma_mnemonics, Cond, Operand, Reg, Shift};
#[allow(unused_imports)]
use crate::compiler::assembler::{spec_imm, spec_mem, spec_x, spec_xr, Code, Insn, Label, LiteralId};
#[allow(unused_imports)]
use crate::compiler::emitter::{dest, dest_direct, spill_off, tagged, Plan, St};
#[allow(unused_imports)]
use crate::compiler::ir::{BlockId, CmpOp, GuardShape, Ir, PoolLit, SmiOp, VReg};
#[allow(unused_imports)]
use crate::compiler::lower::{addsub_name, cond_holds, eq_cond, float_cond, int_cond, Flags};
#[allow(unused_imports)]
use crate::compiler::machine::{
    added, behind, byte_written, class_word, difference, index_fits, is_index_guard, is_signed, is_smi, lemma_gone,
    lemma_index_guard_code, lemma_index_guard_run, lemma_next, lemma_resume, lemma_tag,
    lemma_quarter, lemma_tag_check, lemma_word, run, same_but, signed, smi, tested, word, written, Cpu, Ctl,
};
#[allow(unused_imports)]
use crate::compiler::operands::{
    apart, grows, holds, kept, law_bits_stay_tagged, law_division_is_floored, law_other_operands_fail,
    law_products_are_checked, law_shifts_are_checked, law_sums_are_checked, lemma_access, lemma_at, lemma_finish, lemma_grows_access, lemma_grows_mov64, lemma_grows_refresh,
    lemma_mov64, lemma_refresh, lemma_grows, lemma_grows_by, lemma_grows_commit, lemma_grows_itself,
    lemma_grows_resolve, lemma_grows_tag_check, lemma_kept, lemma_length, lemma_operands, lemma_resolve, lodged, lodging,
    operable, quiet, r_kept, ready, scratch, settled, stored, targets, words_operable,
};
#[allow(unused_imports)]
use crate::compiler::regalloc::{Assignment, SpillSlot};

verus! {

// ── Comparisons ─────────────────────────────────────────────────────────

/// The flags that a comparison of two small integers leaves meet an operator's condition exactly where
/// the numbers stand in the relation that the operator names.
pub proof fn law_integer_conditions(op: CmpOp, va: int, vb: int)
    requires
        is_smi(va),
        is_smi(vb),
    ensures
        cond_holds(int_cond(op), difference(smi(va), smi(vb))) <==> match op {
            CmpOp::Lt => va < vb,
            CmpOp::Le => va <= vb,
            CmpOp::Gt => va > vb,
            CmpOp::Ge => va >= vb,
            CmpOp::Eq => va == vb,
            CmpOp::Ne => va != vb,
        },
{
    lemma_tag(va);
    lemma_tag(vb);
    lemma_word(4 * va - 4 * vb);
}

/// The flags that `fcmp` leaves for two numbers: less, equal, greater.
pub open spec fn float_flags(less: bool, equal: bool) -> Flags {
    Flags { n: less, z: equal, c: !less, v: false }
}

/// The same of floats: where `a` and `b` are told by their order, an operator's condition holds exactly
/// where they stand in its relation.
pub proof fn law_float_conditions(op: CmpOp, a: int, b: int)
    ensures
        cond_holds(float_cond(op), float_flags(a < b, a == b)) <==> match op {
            CmpOp::Lt => a < b,
            CmpOp::Le => a <= b,
            CmpOp::Gt => a > b,
            CmpOp::Ge => a >= b,
            CmpOp::Eq => a == b,
            CmpOp::Ne => a != b,
        },
{
}

/// A comparison that branches goes to its first block exactly where the numbers stand in the relation
/// that its operator names, and to the second one elsewhere. Nothing that lives in a register or a
/// slot changes.
#[verifier::spinoff_prover]
pub proof fn law_comparisons_branch(
    s: St,
    p: Plan,
    op: CmpOp,
    a: VReg,
    b: VReg,
    if_true: BlockId,
    if_false: BlockId,
    fail: BlockId,
    following: Option<BlockId>,
    m: Cpu,
    va: int,
    vb: int,
)
    requires
        operable(p, s, m, a, a, va, b, vb, fail),
        behind(s, p.labels@[if_true.0 as int]),
        behind(s, p.labels@[if_false.0 as int]),
    ensures
        match added(s, s.emit_op(p, Ir::SmiCmpBr { op, a, b, if_true, if_false, fail }, following), m) {
            Ctl::To(l, n) => quiet(p, m, n) && l == p.labels@[(if match op {
                CmpOp::Lt => va < vb,
                CmpOp::Le => va <= vb,
                CmpOp::Gt => va > vb,
                CmpOp::Ge => va >= vb,
                CmpOp::Eq => va == vb,
                CmpOp::Ne => va != vb,
            } {
                if_true
            } else {
                if_false
            }).0 as int],
            _ => false,
        },
{
    reveal(St::emit_op);
    law_integer_conditions(op, va, vb);
    let t = s.emit_op(p, Ir::SmiCmpBr { op, a, b, if_true, if_false, fail }, following);
    let c = t.code;
    let n = s.code.insns.len() as int;
    let (ra, s1) = s.resolve(p, a, 16);
    let (rb, s2) = s1.resolve(p, b, 17);
    let u = s2.tag_check(p, a, ra, b, rb, fail);
    let l1 = p.labels@[if_true.0 as int];
    let l2 = p.labels@[if_false.0 as int];
    let i = Insn::Op("cmp"@, seq![Operand::Reg(ra), Operand::Reg(rb)]);
    let y = u.code.with(i);
    let z = y.with(Insn::BCond(int_cond(op), l1));
    assert(c == z.with(Insn::B(l2)));
    lemma_grows_itself(c);
    lemma_at(z, Insn::B(l2), c);
    lemma_at(y, Insn::BCond(int_cond(op), l1), c);
    lemma_at(u.code, i, c);
    lemma_grows_tag_check(s2, p, a, ra, b, rb, fail);
    lemma_grows(s2.code, u.code, c);
    let e = lemma_operands(c, s, p, a, a, smi(va), b, smi(vb), fail, m);
    let j = s2.code.insns.len() as int;
    let k = u.code.insns.len() as int;
    lemma_length(s2.code, u.code);
    lemma_grows_resolve(s, p, a, 16);
    lemma_grows_resolve(s1, p, b, 17);
    lemma_grows(s.code, s1.code, s2.code);
    lemma_grows(s.code, s2.code, c);
    assert(c.labels[l1.0 as int] == s.code.labels[l1.0 as int] && l1.0 < c.labels.len() && c.labels[l2.0 as int]
        == s.code.labels[l2.0 as int] && l2.0 < c.labels.len() && forall|q: int|
        j <= q < k ==> #[trigger] c.insns[q] == u.code.insns[q]) by {
        reveal(grows);
    }
    let fl = lemma_tag_check(c, j, e, e, s2, p, a, ra.num, va, b, rb.num, vb, fail);
    lemma_mnemonics();
    let g = Cpu { f: difference(smi(va), smi(vb)), ..e };
    lemma_next(c, j, e, k);
    assert(run(c, j, e, k + 1) == Ctl::At(g));
    lemma_next(c, j, e, k + 1);
    lemma_next(c, j, e, k + 2);
    lemma_resume(c, n, m, j, e, k + 3);
    if cond_holds(int_cond(op), g.f) {
        assert(run(c, j, e, k + 2) == Ctl::To(l1, g));
        lemma_gone(c, j, e, k + 2, k + 3, l1, g);
    } else {
        assert(run(c, j, e, k + 2) == Ctl::At(g));
        assert(run(c, j, e, k + 3) == Ctl::To(l2, g));
    }
}

/// Two values, wherever they live, and room for the labels of a sequence.
pub open spec fn two_held(p: Plan, s: St, m: Cpu, a: VReg, wa: u64, b: VReg, wb: u64) -> bool {
    &&& ready(p, s, m)
    &&& lodged(p, a)
    &&& lodged(p, b)
    &&& holds(p, s, m, a, wa)
    &&& holds(p, s, m, b, wb)
    &&& s.code.labels.len() < u32::MAX - 8
}

/// Both values are brought into registers.
pub(crate) proof fn lemma_two(c: Code, s: St, p: Plan, a: VReg, wa: u64, b: VReg, wb: u64, m: Cpu) -> (e: Cpu)
    requires
        two_held(p, s, m, a, wa, b, wb),
        grows(s.resolve(p, a, 16).1.resolve(p, b, 17).1.code, c),
    ensures
        ({
            let (ra, s1) = s.resolve(p, a, 16);
            let (rb, s2) = s1.resolve(p, b, 17);
            &&& s.code.insns.len() <= s2.code.insns.len()
            &&& grows(s.code, s2.code)
            &&& s2.code.labels.len() < u32::MAX - 4
            &&& s2.pos == s.pos
            &&& s2.code.pool == s.code.pool
            &&& run(c, s.code.insns.len() as int, m, s2.code.insns.len() as int) == Ctl::At(e)
            &&& e.x[ra.num as int] == wa
            &&& e.x[rb.num as int] == wb
            &&& ra == spec_xr(ra.num)
            &&& rb == spec_xr(rb.num)
            &&& ra.num < 29 && ra.num != 17 && ra.num != 19 && ra.num != 20
            &&& rb.num < 29 && rb.num != 16 && rb.num != 19 && rb.num != 20
            &&& ready(p, s2, e)
            &&& quiet(p, m, e)
        }),
{
    let n = s.code.insns.len() as int;
    let (ra, s1) = s.resolve(p, a, 16);
    let (rb, s2) = s1.resolve(p, b, 17);
    lemma_grows_resolve(s, p, a, 16);
    lemma_grows_resolve(s1, p, b, 17);
    lemma_grows(s1.code, s2.code, c);
    lemma_grows(s.code, s1.code, s2.code);
    let e1 = lemma_resolve(c, s, p, a, wa, 16, m, b, wb);
    let e = lemma_resolve(c, s1, p, b, wb, 17, e1, b, wb);
    lemma_length(s.code, s1.code);
    lemma_length(s1.code, s2.code);
    lemma_resume(c, n, m, s1.code.insns.len() as int, e1, s2.code.insns.len() as int);
    assert(e.x[ra.num as int] == e1.x[ra.num as int]) by {
        assert(r_kept(p, s1, 17, ra.num));
    }
    assert forall|r: u8| r < 32 && !scratch(r) && !p.r1a_free@.contains(r) implies #[trigger] e.x[r as int]
        == m.x[r as int] by {
        assert(r_kept(p, s, 16, r));
        assert(r_kept(p, s1, 17, r));
        assert(e1.x[r as int] == m.x[r as int]);
    }
    e
}

/// One value is brought into a register.
pub(crate) proof fn lemma_sole(c: Code, s: St, p: Plan, a: VReg, wa: u64, sc: u8, m: Cpu) -> (e: Cpu)
    requires
        two_held(p, s, m, a, wa, a, wa),
        sc == 16 || sc == 17,
        grows(s.resolve(p, a, sc).1.code, c),
    ensures
        ({
            let (ra, s1) = s.resolve(p, a, sc);
            &&& s.code.insns.len() <= s1.code.insns.len()
            &&& grows(s.code, s1.code)
            &&& s1.code.labels.len() < u32::MAX - 4
            &&& s1.pos == s.pos
            &&& s1.code.pool == s.code.pool
            &&& run(c, s.code.insns.len() as int, m, s1.code.insns.len() as int) == Ctl::At(e)
            &&& e.x[ra.num as int] == wa
            &&& ra == spec_xr(ra.num)
            &&& ra.num < 29 && (ra.num == sc || !scratch(ra.num))
            &&& ready(p, s1, e)
            &&& quiet(p, m, e)
        }),
{
    let (ra, s1) = s.resolve(p, a, sc);
    lemma_grows_resolve(s, p, a, sc);
    let e = lemma_resolve(c, s, p, a, wa, sc, m, a, wa);
    lemma_length(s.code, s1.code);
    assert forall|r: u8| r < 32 && !scratch(r) && !p.r1a_free@.contains(r) implies #[trigger] e.x[r as int]
        == m.x[r as int] by {
        assert(r_kept(p, s, sc, r));
    }
    e
}

/// The word of a constant of the method.
pub open spec fn lit_word(p: Plan, s: St, l: PoolLit) -> u64 {
    s.code.pool[p.lit(l).0 as int].0
}

/// A boolean is chosen by the flags and put into its home.
#[verifier::spinoff_prover]
pub(crate) proof fn lemma_select(c: Code, n: int, m: Cpu, j: int, e: Cpu, u: St, p: Plan, dst: VReg, cond: Cond, g: Cpu)
    requires
        0 <= n <= j <= u.code.insns.len(),
        m.x.len() == 32,
        run(c, n, m, j) == Ctl::At(e),
        quiet(p, m, e),
        ready(p, u, e),
        lodged(p, dst),
        run(c, j, e, u.code.insns.len() as int) == Ctl::At(g),
        g == (Cpu { f: g.f, ..e }),
        grows(u.select(p, dst, cond).code, c),
    ensures
        match run(c, n, m, u.select(p, dst, cond).code.insns.len() as int) {
            Ctl::At(h) => kept(p, m, h, dst) && settled(
                p,
                h,
                dst,
                if cond_holds(cond, g.f) {
                    lit_word(p, u, p.true_lit)
                } else {
                    lit_word(p, u, p.false_lit)
                },
            ),
            _ => false,
        },
{
    lemma_mnemonics();
    let f = dest(p, dst).num;
    assert(dest(p, dst) == spec_xr(f));
    let k = u.code.insns.len() as int;
    let i1 = Insn::LdrLit(spec_xr(16), p.lit(p.true_lit));
    let i2 = Insn::LdrLit(spec_xr(17), p.lit(p.false_lit));
    let i3 = Insn::Op("csel"@, seq![spec_x(f), spec_x(16), spec_x(17), Operand::Sym(cond)]);
    let y1 = u.ldl(spec_xr(16), p.lit(p.true_lit));
    let y2 = y1.ldl(spec_xr(17), p.lit(p.false_lit));
    let y3 = y2.i4("csel"@, spec_x(f), spec_x(16), spec_x(17), Operand::Sym(cond));
    assert(u.select(p, dst, cond) == y3.commit(p, dst, spec_xr(f)));
    lemma_grows_commit(y3, p, dst, f);
    lemma_grows(y3.code, u.select(p, dst, cond).code, c);
    lemma_at(y2.code, i3, c);
    lemma_at(y1.code, i2, c);
    lemma_at(u.code, i1, c);
    lemma_length(u.code, c);
    let wt = lit_word(p, u, p.true_lit);
    let wf = lit_word(p, u, p.false_lit);
    let w = if cond_holds(cond, g.f) {
        wt
    } else {
        wf
    };
    let g1 = Cpu { x: g.x.update(16, wt), ..g };
    let g2 = Cpu { x: g1.x.update(17, wf), ..g1 };
    let g3 = Cpu { x: g2.x.update(f as int, w), ..g2 };
    lemma_next(c, j, e, k);
    assert(run(c, j, e, k + 1) == Ctl::At(g1));
    lemma_next(c, j, e, k + 1);
    assert(run(c, j, e, k + 2) == Ctl::At(g2));
    lemma_next(c, j, e, k + 2);
    assert(run(c, j, e, k + 3) == Ctl::At(g3));
    lemma_finish(c, n, m, j, e, y3, p, dst, f, w, Label(0), true);
}

pub(crate) proof fn lemma_grows_select(u: St, p: Plan, dst: VReg, cond: Cond)
    ensures
        grows(u.code, u.select(p, dst, cond).code),
{
    let f = dest(p, dst).num;
    let y1 = u.ldl(spec_xr(16), p.lit(p.true_lit));
    let y2 = y1.ldl(spec_xr(17), p.lit(p.false_lit));
    let y3 = y2.i4("csel"@, spec_x(f), spec_x(16), spec_x(17), Operand::Sym(cond));
    assert(u.select(p, dst, cond) == y3.commit(p, dst, spec_xr(f)));
    lemma_grows_commit(y3, p, dst, f);
    lemma_at(y2.code, Insn::Op("csel"@, seq![spec_x(f), spec_x(16), spec_x(17), Operand::Sym(cond)]), y3.commit(
        p,
        dst,
        spec_xr(f),
    ).code);
    lemma_at(y1.code, Insn::LdrLit(spec_xr(17), p.lit(p.false_lit)), y3.commit(p, dst, spec_xr(f)).code);
    lemma_at(u.code, Insn::LdrLit(spec_xr(16), p.lit(p.true_lit)), y3.commit(p, dst, spec_xr(f)).code);
}

/// A comparison that answers a boolean leaves the word of true exactly where the numbers stand in the
/// relation that its operator names, and that of false elsewhere.
#[verifier::spinoff_prover]
pub proof fn law_comparisons_answer(
    s: St,
    p: Plan,
    op: CmpOp,
    dst: VReg,
    a: VReg,
    b: VReg,
    fail: BlockId,
    following: Option<BlockId>,
    m: Cpu,
    va: int,
    vb: int,
)
    requires
        operable(p, s, m, dst, a, va, b, vb, fail),
    ensures
        match added(s, s.emit_op(p, Ir::SmiCmpVal { op, dst, a, b, fail }, following), m) {
            Ctl::At(n) => kept(p, m, n, dst) && settled(
                p,
                n,
                dst,
                lit_word(
                    p,
                    s,
                    if match op {
                        CmpOp::Lt => va < vb,
                        CmpOp::Le => va <= vb,
                        CmpOp::Gt => va > vb,
                        CmpOp::Ge => va >= vb,
                        CmpOp::Eq => va == vb,
                        CmpOp::Ne => va != vb,
                    } {
                        p.true_lit
                    } else {
                        p.false_lit
                    },
                ),
            ),
            _ => false,
        },
{
    reveal(St::emit_op);
    law_integer_conditions(op, va, vb);
    let t = s.emit_op(p, Ir::SmiCmpVal { op, dst, a, b, fail }, following);
    let c = t.code;
    let n = s.code.insns.len() as int;
    let (ra, s1) = s.resolve(p, a, 16);
    let (rb, s2) = s1.resolve(p, b, 17);
    let u = s2.tag_check(p, a, ra, b, rb, fail);
    let i = Insn::Op("cmp"@, seq![Operand::Reg(ra), Operand::Reg(rb)]);
    let y = u.i2("cmp"@, Operand::Reg(ra), Operand::Reg(rb));
    assert(t == y.select(p, dst, int_cond(op)));
    lemma_grows_select(y, p, dst, int_cond(op));
    lemma_grows_itself(c);
    lemma_at(u.code, i, c);
    lemma_grows_tag_check(s2, p, a, ra, b, rb, fail);
    lemma_grows(s2.code, u.code, c);
    let e = lemma_operands(c, s, p, dst, a, smi(va), b, smi(vb), fail, m);
    let j = s2.code.insns.len() as int;
    let k = u.code.insns.len() as int;
    lemma_length(s2.code, u.code);
    lemma_grows_resolve(s, p, a, 16);
    lemma_grows_resolve(s1, p, b, 17);
    lemma_length(s.code, s1.code);
    lemma_length(s1.code, s2.code);
    assert(forall|q: int| j <= q < k ==> #[trigger] c.insns[q] == u.code.insns[q]) by {
        reveal(grows);
    }
    let fl = lemma_tag_check(c, j, e, e, s2, p, a, ra.num, va, b, rb.num, vb, fail);
    lemma_mnemonics();
    let g = Cpu { f: difference(smi(va), smi(vb)), ..e };
    lemma_next(c, j, e, k);
    assert(run(c, j, e, k + 1) == Ctl::At(g));
    lemma_select(c, n, m, j, e, y, p, dst, int_cond(op), g);
}

/// The comparison of two words leaves the word of true exactly where they are the same, or, if it is
/// for that, where they differ.
#[verifier::spinoff_prover]
pub proof fn law_identity_answers(
    s: St,
    p: Plan,
    dst: VReg,
    a: VReg,
    b: VReg,
    neq: bool,
    following: Option<BlockId>,
    m: Cpu,
    wa: u64,
    wb: u64,
)
    requires
        two_held(p, s, m, a, wa, b, wb),
        lodged(p, dst),
    ensures
        match added(s, s.emit_op(p, Ir::RefCmpVal { dst, a, b, neq }, following), m) {
            Ctl::At(n) => kept(p, m, n, dst) && settled(
                p,
                n,
                dst,
                lit_word(
                    p,
                    s,
                    if (wa == wb) != neq {
                        p.true_lit
                    } else {
                        p.false_lit
                    },
                ),
            ),
            _ => false,
        },
{
    reveal(St::emit_op);
    let t = s.emit_op(p, Ir::RefCmpVal { dst, a, b, neq }, following);
    let c = t.code;
    let n = s.code.insns.len() as int;
    let (ra, s1) = s.resolve(p, a, 16);
    let (rb, s2) = s1.resolve(p, b, 17);
    let y = s2.i2("cmp"@, Operand::Reg(ra), Operand::Reg(rb));
    assert(t == y.select(p, dst, eq_cond(neq)));
    lemma_grows_select(y, p, dst, eq_cond(neq));
    lemma_grows_itself(c);
    lemma_at(s2.code, Insn::Op("cmp"@, seq![Operand::Reg(ra), Operand::Reg(rb)]), c);
    let e = lemma_two(c, s, p, a, wa, b, wb, m);
    let j = s2.code.insns.len() as int;
    lemma_mnemonics();
    let g = Cpu { f: difference(wa, wb), ..e };
    lemma_next(c, j, e, j);
    assert(run(c, j, e, j + 1) == Ctl::At(g));
    lemma_select(c, n, m, j, e, y, p, dst, eq_cond(neq), g);
}

/// The same as a branch. Where the second block follows, control runs into it.
#[verifier::spinoff_prover]
pub proof fn law_identity_branches(
    s: St,
    p: Plan,
    a: VReg,
    b: VReg,
    neq: bool,
    if_true: BlockId,
    if_false: BlockId,
    following: Option<BlockId>,
    m: Cpu,
    wa: u64,
    wb: u64,
)
    requires
        two_held(p, s, m, a, wa, b, wb),
        behind(s, p.labels@[if_true.0 as int]),
        behind(s, p.labels@[if_false.0 as int]),
    ensures
        match added(s, s.emit_op(p, Ir::RefCmpBr { a, b, neq, if_true, if_false }, following), m) {
            Ctl::To(l, n) => quiet(p, m, n) && l == p.labels@[(if (wa == wb) != neq {
                if_true
            } else {
                if_false
            }).0 as int] && ((wa == wb) != neq || following != Some(if_false)),
            Ctl::At(n) => quiet(p, m, n) && (wa == wb) == neq && following == Some(if_false),
            _ => false,
        },
{
    reveal(St::emit_op);
    let t = s.emit_op(p, Ir::RefCmpBr { a, b, neq, if_true, if_false }, following);
    let c = t.code;
    let n = s.code.insns.len() as int;
    let (ra, s1) = s.resolve(p, a, 16);
    let (rb, s2) = s1.resolve(p, b, 17);
    let l1 = p.labels@[if_true.0 as int];
    let l2 = p.labels@[if_false.0 as int];
    let i = Insn::Op("cmp"@, seq![Operand::Reg(ra), Operand::Reg(rb)]);
    let y = s2.code.with(i);
    let z = y.with(Insn::BCond(eq_cond(neq), l1));
    let last = following != Some(if_false);
    lemma_grows_itself(c);
    if last {
        assert(c == z.with(Insn::B(l2)));
        lemma_at(z, Insn::B(l2), c);
    } else {
        assert(c == z);
    }
    lemma_at(y, Insn::BCond(eq_cond(neq), l1), c);
    lemma_at(s2.code, i, c);
    let e = lemma_two(c, s, p, a, wa, b, wb, m);
    let j = s2.code.insns.len() as int;
    lemma_grows(s.code, s2.code, c);
    assert(c.labels[l1.0 as int] == s.code.labels[l1.0 as int] && l1.0 < c.labels.len() && c.labels[l2.0 as int]
        == s.code.labels[l2.0 as int] && l2.0 < c.labels.len()) by {
        reveal(grows);
    }
    lemma_mnemonics();
    let g = Cpu { f: difference(wa, wb), ..e };
    lemma_next(c, j, e, j);
    assert(run(c, j, e, j + 1) == Ctl::At(g));
    lemma_next(c, j, e, j + 1);
    let end = c.insns.len() as int;
    lemma_resume(c, n, m, j, e, end);
    if (wa == wb) != neq {
        assert(run(c, j, e, j + 2) == Ctl::To(l1, g));
        lemma_gone(c, j, e, j + 2, end, l1, g);
    } else {
        assert(run(c, j, e, j + 2) == Ctl::At(g));
        if last {
            lemma_next(c, j, e, j + 2);
            assert(run(c, j, e, j + 3) == Ctl::To(l2, g));
        }
    }
}

/// A branch on a boolean goes by the word: the first block for true, the second for false, the third
/// for any other.
#[verifier::spinoff_prover]
pub proof fn law_boolean_branches(
    s: St,
    p: Plan,
    val: VReg,
    if_true: BlockId,
    if_false: BlockId,
    not_bool: BlockId,
    following: Option<BlockId>,
    m: Cpu,
    w: u64,
)
    requires
        two_held(p, s, m, val, w, val, w),
        behind(s, p.labels@[if_true.0 as int]),
        behind(s, p.labels@[if_false.0 as int]),
        behind(s, p.labels@[not_bool.0 as int]),
    ensures
        match added(s, s.emit_op(p, Ir::BoolBr { val, if_true, if_false, not_bool }, following), m) {
            Ctl::To(l, n) => quiet(p, m, n) && l == p.labels@[(if w == lit_word(p, s, p.true_lit) {
                if_true
            } else if w == lit_word(p, s, p.false_lit) {
                if_false
            } else {
                not_bool
            }).0 as int],
            _ => false,
        },
{
    reveal(St::emit_op);
    let t = s.emit_op(p, Ir::BoolBr { val, if_true, if_false, not_bool }, following);
    let c = t.code;
    let n = s.code.insns.len() as int;
    let (rv, s1) = s.resolve(p, val, 16);
    let l1 = p.labels@[if_true.0 as int];
    let l2 = p.labels@[if_false.0 as int];
    let l3 = p.labels@[not_bool.0 as int];
    let lt = Insn::LdrLit(spec_xr(17), p.lit(p.true_lit));
    let lf = Insn::LdrLit(spec_xr(17), p.lit(p.false_lit));
    let i = Insn::Op("cmp"@, seq![Operand::Reg(rv), spec_x(17)]);
    let y1 = s1.code.with(lt);
    let y2 = y1.with(i);
    let y3 = y2.with(Insn::BCond(Cond::Eq, l1));
    let y4 = y3.with(lf);
    let y5 = y4.with(i);
    let y6 = y5.with(Insn::BCond(Cond::Eq, l2));
    assert(c == y6.with(Insn::B(l3)));
    lemma_grows_itself(c);
    lemma_at(y6, Insn::B(l3), c);
    lemma_at(y5, Insn::BCond(Cond::Eq, l2), c);
    lemma_at(y4, i, c);
    lemma_at(y3, lf, c);
    lemma_at(y2, Insn::BCond(Cond::Eq, l1), c);
    lemma_at(y1, i, c);
    lemma_at(s1.code, lt, c);
    let e = lemma_sole(c, s, p, val, w, 16, m);
    let j = s1.code.insns.len() as int;
    lemma_grows(s.code, s1.code, c);
    lemma_length(s1.code, c);
    assert(c.labels[l1.0 as int] == s.code.labels[l1.0 as int] && l1.0 < c.labels.len() && c.labels[l2.0 as int]
        == s.code.labels[l2.0 as int] && l2.0 < c.labels.len() && c.labels[l3.0 as int] == s.code.labels[l3.0 as int]
        && l3.0 < c.labels.len()) by {
        reveal(grows);
    }
    lemma_mnemonics();
    let wt = lit_word(p, s, p.true_lit);
    let wf = lit_word(p, s, p.false_lit);
    let end = j + 7;
    lemma_resume(c, n, m, j, e, end);
    let g1 = Cpu { x: e.x.update(17, wt), ..e };
    lemma_next(c, j, e, j);
    assert(run(c, j, e, j + 1) == Ctl::At(g1));
    let g2 = Cpu { f: difference(w, wt), ..g1 };
    lemma_next(c, j, e, j + 1);
    assert(run(c, j, e, j + 2) == Ctl::At(g2));
    lemma_next(c, j, e, j + 2);
    if w == wt {
        assert(run(c, j, e, j + 3) == Ctl::To(l1, g2));
        lemma_gone(c, j, e, j + 3, end, l1, g2);
    } else {
        let g3 = Cpu { x: g2.x.update(17, wf), ..g2 };
        lemma_next(c, j, e, j + 3);
        assert(run(c, j, e, j + 4) == Ctl::At(g3));
        let g4 = Cpu { f: difference(w, wf), ..g3 };
        lemma_next(c, j, e, j + 4);
        assert(run(c, j, e, j + 5) == Ctl::At(g4));
        lemma_next(c, j, e, j + 5);
        if w == wf {
            assert(run(c, j, e, j + 6) == Ctl::To(l2, g4));
            lemma_gone(c, j, e, j + 6, end, l2, g4);
        } else {
            lemma_next(c, j, e, j + 6);
            assert(run(c, j, e, j + 7) == Ctl::To(l3, g4));
        }
    }
}

// ── Constants and moves ─────────────────────────────────────────────────

pub(crate) proof fn lemma_tagged(v: i64)
    requires
        is_smi(v as int),
    ensures
        tagged(v) == smi(v as int),
{
    assert(v >= 0 ==> (v << 2) as u64 == 4 * v) by (bit_vector)
        requires
            -0x2000_0000_0000_0000 <= v < 0x2000_0000_0000_0000,
    ;
    assert(v < 0 ==> (v << 2) as u64 == 0x1_0000_0000_0000_0000 + 4 * v) by (bit_vector)
        requires
            -0x2000_0000_0000_0000 <= v < 0x2000_0000_0000_0000,
    ;
}

/// A small constant is left where its destination is kept, tagged.
#[verifier::spinoff_prover]
pub proof fn law_small_constants(s: St, p: Plan, dst: VReg, value: i64, following: Option<BlockId>, m: Cpu)
    requires
        ready(p, s, m),
        lodged(p, dst),
        is_smi(value as int),
    ensures
        match added(s, s.emit_op(p, Ir::ConstSmi { dst, value }, following), m) {
            Ctl::At(n) => settled(p, n, dst, smi(value as int)) && kept(p, m, n, dst),
            _ => false,
        },
{
    reveal(St::emit_op);
    lemma_tagged(value);
    let t = s.emit_op(p, Ir::ConstSmi { dst, value }, following);
    let c = t.code;
    let n = s.code.insns.len() as int;
    let f = dest_direct(p, dst).num;
    assert(dest_direct(p, dst) == spec_xr(f));
    let w = smi(value as int);
    let y = s.mov64(spec_xr(f), w);
    assert(t == y.commit(p, dst, spec_xr(f)));
    lemma_grows_commit(y, p, dst, f);
    lemma_grows_itself(c);
    lemma_mov64(c, s, f, w, m);
    lemma_grows_mov64(s, f, w);
    lemma_length(s.code, y.code);
    lemma_finish(c, n, m, n, m, y, p, dst, f, w, Label(0), true);
}

/// A constant of the method is left where its destination is kept. A register beside the slot belongs to
/// a destination in a slot only.
#[verifier::spinoff_prover]
pub proof fn law_method_constants(s: St, p: Plan, dst: VReg, lit: PoolLit, following: Option<BlockId>, m: Cpu)
    requires
        ready(p, s, m),
        lodged(p, dst),
        p.home(dst) is Reg ==> p.resident@[dst.0 as int] is None,
    ensures
        match added(s, s.emit_op(p, Ir::ConstPool { dst, lit }, following), m) {
            Ctl::At(n) => settled(p, n, dst, lit_word(p, s, lit)) && kept(p, m, n, dst),
            _ => false,
        },
{
    reveal(St::emit_op);
    let t = s.emit_op(p, Ir::ConstPool { dst, lit }, following);
    let c = t.code;
    let n = s.code.insns.len() as int;
    let w = lit_word(p, s, lit);
    let r29: u8 = 29;
    lemma_grows_itself(c);
    match p.home(dst) {
        Assignment::Reg(r) => {
            lemma_at(s.code, Insn::LdrLit(spec_xr(r), p.lit(lit)), c);
            lemma_next(c, n, m, n);
            assert(run(c, n, m, n + 1) == Ctl::At(Cpu { x: m.x.update(r as int, w), ..m }));
        },
        Assignment::Spill(slot) => {
            let f = dest_direct(p, dst).num;
            assert(dest_direct(p, dst) == spec_xr(f));
            let y1 = s.ldl(spec_xr(f), p.lit(lit));
            let y2 = y1.spill_access("str"@, spec_x(f), slot);
            assert(t == y2.refresh(p, dst, spec_xr(f)));
            lemma_grows_refresh(y2, p, dst, f);
            lemma_grows_access(y1, "str"@, spec_x(f), slot);
            lemma_grows(y1.code, y2.code, c);
            lemma_at(s.code, Insn::LdrLit(spec_xr(f), p.lit(lit)), c);
            lemma_length(y1.code, y2.code);
            lemma_length(y2.code, c);
            let m1 = Cpu { x: m.x.update(f as int, w), ..m };
            lemma_next(c, n, m, n);
            assert(run(c, n, m, n + 1) == Ctl::At(m1));
            lemma_mnemonics();
            assert("str"@ != "ldr"@);
            assert(m1.x[r29 as int] == m.x[r29 as int]);
            lemma_access(c, y1, "str"@, f, slot, m1);
            let m2 = stored(m1, slot, f);
            let m3 = lemma_refresh(c, y2, p, dst, f, m2);
            lemma_resume(c, n, m, n + 1, m1, y2.code.insns.len() as int);
            lemma_resume(c, n, m, y2.code.insns.len() as int, m2, c.insns.len() as int);
            assert(m2.x[r29 as int] == m.x[r29 as int]);
            assert(m3.x[r29 as int] == m.x[r29 as int]);
        },
    }
}

/// A value that is moved is left where its destination is kept.
#[verifier::spinoff_prover]
pub proof fn law_moves(s: St, p: Plan, dst: VReg, src: VReg, following: Option<BlockId>, m: Cpu, w: u64)
    requires
        two_held(p, s, m, src, w, src, w),
        lodged(p, dst),
        !p.vreg_is_fp@[dst.0 as int],
    ensures
        match added(s, s.emit_op(p, Ir::Move { dst, src }, following), m) {
            Ctl::At(n) => settled(p, n, dst, w) && kept(p, m, n, dst),
            _ => false,
        },
{
    reveal(St::emit_op);
    let t = s.emit_op(p, Ir::Move { dst, src }, following);
    let c = t.code;
    let n = s.code.insns.len() as int;
    let (rs, s1) = s.resolve(p, src, 16);
    let f = dest_direct(p, dst).num;
    assert(dest_direct(p, dst) == spec_xr(f));
    let y = if f != rs.num {
        s1.i2("mov"@, spec_x(f), Operand::Reg(rs))
    } else {
        s1
    };
    assert(t == y.commit(p, dst, spec_xr(f)));
    lemma_grows_commit(y, p, dst, f);
    lemma_grows_itself(c);
    if f != rs.num {
        lemma_at(s1.code, Insn::Op("mov"@, seq![spec_x(f), Operand::Reg(rs)]), c);
    }
    let e = lemma_sole(c, s, p, src, w, 16, m);
    let j = s1.code.insns.len() as int;
    lemma_mnemonics();
    if f != rs.num {
        lemma_next(c, j, e, j);
        assert(run(c, j, e, j + 1) == Ctl::At(Cpu { x: e.x.update(f as int, w), ..e }));
    }
    lemma_finish(c, n, m, j, e, y, p, dst, f, w, Label(0), true);
}

/// An argument is taken from the register in which it is passed.
#[verifier::spinoff_prover]
pub proof fn law_arguments_are_taken(s: St, p: Plan, dst: VReg, index: u8, following: Option<BlockId>, m: Cpu)
    requires
        ready(p, s, m),
        lodged(p, dst),
        index < 16,
        p.home(dst) is Reg ==> p.resident@[dst.0 as int] is None,
    ensures
        match added(s, s.emit_op(p, Ir::Param { dst, index }, following), m) {
            Ctl::At(n) => settled(p, n, dst, m.x[index as int]) && kept(p, m, n, dst),
            _ => false,
        },
{
    reveal(St::emit_op);
    let t = s.emit_op(p, Ir::Param { dst, index }, following);
    let c = t.code;
    let n = s.code.insns.len() as int;
    let w = m.x[index as int];
    let r29: u8 = 29;
    lemma_grows_itself(c);
    lemma_mnemonics();
    match p.home(dst) {
        Assignment::Reg(r) => {
            if r != index {
                lemma_at(s.code, Insn::Op("mov"@, seq![spec_x(r), spec_x(index)]), c);
                lemma_next(c, n, m, n);
                assert(run(c, n, m, n + 1) == Ctl::At(Cpu { x: m.x.update(r as int, w), ..m }));
            }
        },
        Assignment::Spill(slot) => {
            let y = s.spill_access("str"@, spec_x(index), slot);
            assert(t == y.refresh(p, dst, spec_xr(index)));
            lemma_grows_refresh(y, p, dst, index);
            lemma_grows_access(s, "str"@, spec_x(index), slot);
            lemma_length(s.code, y.code);
            lemma_length(y.code, c);
            assert("str"@ != "ldr"@);
            lemma_access(c, s, "str"@, index, slot, m);
            let m2 = stored(m, slot, index);
            let m3 = lemma_refresh(c, y, p, dst, index, m2);
            lemma_resume(c, n, m, y.code.insns.len() as int, m2, c.insns.len() as int);
            assert(m2.x[r29 as int] == m.x[r29 as int]);
            assert(m3.x[r29 as int] == m.x[r29 as int]);
        },
    }
}

/// A jump goes to its block, or runs into it where it follows.
pub proof fn law_jumps(s: St, p: Plan, target: BlockId, following: Option<BlockId>, m: Cpu)
    requires
        behind(s, p.labels@[target.0 as int]),
    ensures
        match added(s, s.emit_op(p, Ir::Jump { target }, following), m) {
            Ctl::To(l, n) => following != Some(target) && l == p.labels@[target.0 as int] && n == m,
            Ctl::At(n) => following == Some(target) && n == m,
            _ => false,
        },
{
    reveal(St::emit_op);
    let t = s.emit_op(p, Ir::Jump { target }, following);
    let n = s.code.insns.len() as int;
    lemma_next(t.code, n, m, n);
}

// ── Sums that cannot overflow ───────────────────────────────────────────

/// Sums, differences and products whose operands are known are small integers are computed without a
/// check: the result is right wherever it is a small integer.
#[verifier::spinoff_prover]
pub proof fn law_unchecked_arithmetic(
    s: St,
    p: Plan,
    op: SmiOp,
    dst: VReg,
    a: VReg,
    b: VReg,
    following: Option<BlockId>,
    m: Cpu,
    va: int,
    vb: int,
)
    requires
        op is Add || op is Sub || op is Mul,
        is_smi(va),
        is_smi(vb),
        two_held(p, s, m, a, smi(va), b, smi(vb)),
        lodged(p, dst),
    ensures
        ({
            let v = match op {
                SmiOp::Add => va + vb,
                SmiOp::Sub => va - vb,
                _ => va * vb,
            };
            match added(s, s.emit_op(p, Ir::SmiArithNoOv { op, dst, a, b }, following), m) {
                Ctl::At(n) => (is_smi(v) ==> settled(p, n, dst, smi(v))) && kept(p, m, n, dst),
                _ => false,
            }
        }),
{
    reveal(St::emit_op);
    lemma_mnemonics();
    lemma_tag(va);
    lemma_tag(vb);
    let v = match op {
        SmiOp::Add => va + vb,
        SmiOp::Sub => va - vb,
        _ => va * vb,
    };
    let t = s.emit_op(p, Ir::SmiArithNoOv { op, dst, a, b }, following);
    let c = t.code;
    let n = s.code.insns.len() as int;
    let (ra, s1) = s.resolve(p, a, 16);
    let (rb, s2) = s1.resolve(p, b, 17);
    let f = dest_direct(p, dst).num;
    assert(dest_direct(p, dst) == spec_xr(f));
    lemma_grows_itself(c);
    let j = s2.code.insns.len() as int;
    let w = word(4 * v);
    if op is Mul {
        let y1 = s2.i3("asr"@, spec_x(16), Operand::Reg(ra), spec_imm(2));
        let y2 = y1.i3("mul"@, spec_x(f), spec_x(16), Operand::Reg(rb));
        assert(t == y2.commit(p, dst, spec_xr(f)));
        lemma_grows_commit(y2, p, dst, f);
        lemma_at(y1.code, Insn::Op("mul"@, seq![spec_x(f), spec_x(16), Operand::Reg(rb)]), c);
        lemma_at(s2.code, Insn::Op("asr"@, seq![spec_x(16), Operand::Reg(ra), spec_imm(2)]), c);
        let e = lemma_two(c, s, p, a, smi(va), b, smi(vb), m);
        lemma_quarter(smi(va), 2);
        lemma_word(va);
        lemma_word(2);
        let g1 = Cpu { x: e.x.update(16, word(va)), ..e };
        lemma_next(c, j, e, j);
        assert(run(c, j, e, j + 1) == Ctl::At(g1));
        assert(va * (4 * vb) == 4 * (va * vb)) by (nonlinear_arith);
        let g2 = Cpu { x: g1.x.update(f as int, w), ..g1 };
        lemma_next(c, j, e, j + 1);
        assert(run(c, j, e, j + 2) == Ctl::At(g2));
        lemma_finish(c, n, m, j, e, y2, p, dst, f, w, Label(0), true);
    } else {
        let name = addsub_name(op);
        let y = s2.i3(name, spec_x(f), Operand::Reg(ra), Operand::Reg(rb));
        assert(t == y.commit(p, dst, spec_xr(f)));
        lemma_grows_commit(y, p, dst, f);
        lemma_at(s2.code, Insn::Op(name, seq![spec_x(f), Operand::Reg(ra), Operand::Reg(rb)]), c);
        let e = lemma_two(c, s, p, a, smi(va), b, smi(vb), m);
        let g = Cpu { x: e.x.update(f as int, w), ..e };
        lemma_next(c, j, e, j);
        assert(run(c, j, e, j + 1) == Ctl::At(g));
        lemma_finish(c, n, m, j, e, y, p, dst, f, w, Label(0), true);
    }
}

/// The same with a constant.
#[verifier::spinoff_prover]
pub proof fn law_unchecked_constant_sums(
    s: St,
    p: Plan,
    op: SmiOp,
    dst: VReg,
    a: VReg,
    imm: i64,
    following: Option<BlockId>,
    m: Cpu,
    va: int,
)
    requires
        op is Add || op is Sub,
        is_smi(va),
        is_smi(imm as int),
        two_held(p, s, m, a, smi(va), a, smi(va)),
        lodged(p, dst),
    ensures
        ({
            let v = if op is Add {
                va + imm
            } else {
                va - imm
            };
            match added(s, s.emit_op(p, Ir::SmiArithNoOvImm { op, dst, a, imm }, following), m) {
                Ctl::At(n) => (is_smi(v) ==> settled(p, n, dst, smi(v))) && kept(p, m, n, dst),
                _ => false,
            }
        }),
{
    reveal(St::emit_op);
    lemma_mnemonics();
    lemma_tag(va);
    let v = if op is Add {
        va + imm
    } else {
        va - imm
    };
    lemma_word(4 * imm);
    let t = s.emit_op(p, Ir::SmiArithNoOvImm { op, dst, a, imm }, following);
    let c = t.code;
    let n = s.code.insns.len() as int;
    let (ra, s1) = s.resolve(p, a, 16);
    let f = dest_direct(p, dst).num;
    assert(dest_direct(p, dst) == spec_xr(f));
    lemma_grows_itself(c);
    let j = s1.code.insns.len() as int;
    let w = word(4 * v);
    let name = addsub_name(op);
    let k = (4 * imm) as i64;
    let y = s1.i3(name, spec_x(f), Operand::Reg(ra), spec_imm(k));
    assert(t == y.commit(p, dst, spec_xr(f)));
    lemma_grows_commit(y, p, dst, f);
    lemma_at(s1.code, Insn::Op(name, seq![spec_x(f), Operand::Reg(ra), spec_imm(k)]), c);
    let e = lemma_sole(c, s, p, a, smi(va), 16, m);
    let g = Cpu { x: e.x.update(f as int, w), ..e };
    lemma_next(c, j, e, j);
    assert(run(c, j, e, j + 1) == Ctl::At(g));
    lemma_finish(c, n, m, j, e, y, p, dst, f, w, Label(0), true);
}

// ── Guards ──────────────────────────────────────────────────────────────

/// A guard on one class lets exactly the objects pass that it is for, and sends the rest to its failure
/// block: small integers; heap objects whose class word is the expected one; or one word.
#[verifier::spinoff_prover]
pub proof fn law_class_guards(
    s: St,
    p: Plan,
    obj: VReg,
    expect: PoolLit,
    fail: BlockId,
    kind: GuardShape,
    following: Option<BlockId>,
    m: Cpu,
    w: u64,
)
    requires
        two_held(p, s, m, obj, w, obj, w),
        behind(s, p.labels@[fail.0 as int]),
    ensures
        ({
            let passes = match kind {
                GuardShape::SmiTest => w & 3 == 0,
                GuardShape::KlassTest => w & 3 != 0 && (m.mem)(w - 1 + 8) == lit_word(p, s, expect),
                GuardShape::ValueTest => w == lit_word(p, s, expect),
            };
            match added(s, s.emit_op(p, Ir::GuardKlass { obj, expect, fail, kind }, following), m) {
                Ctl::At(n) => passes && quiet(p, m, n),
                Ctl::To(l, n) => !passes && l == p.labels@[fail.0 as int] && quiet(p, m, n),
                _ => false,
            }
        }),
{
    reveal(St::emit_op);
    lemma_mnemonics();
    lemma_word(3);
    let t = s.emit_op(p, Ir::GuardKlass { obj, expect, fail, kind }, following);
    let c = t.code;
    let n = s.code.insns.len() as int;
    let cold = p.labels@[fail.0 as int];
    let (ro, s1) = s.resolve(p, obj, 16);
    let j = s1.code.insns.len() as int;
    let lw = lit_word(p, s, expect);
    lemma_grows_itself(c);
    let tst = Insn::Op("tst"@, seq![Operand::Reg(ro), spec_imm(3)]);
    let end = c.insns.len() as int;
    match kind {
        GuardShape::SmiTest => {
            let y = s1.code.with(tst);
            assert(c == y.with(Insn::BCond(Cond::Ne, cold)));
            lemma_at(y, Insn::BCond(Cond::Ne, cold), c);
            lemma_at(s1.code, tst, c);
            let e = lemma_sole(c, s, p, obj, w, 16, m);
            lemma_guard_label(s, s1, c, cold);
            let g = Cpu { f: tested(w, 3), ..e };
            lemma_next(c, j, e, j);
            assert(run(c, j, e, j + 1) == Ctl::At(g));
            lemma_next(c, j, e, j + 1);
            lemma_resume(c, n, m, j, e, end);
        },
        GuardShape::KlassTest => {
            let ld = Insn::Op("ldur"@, seq![spec_x(17), spec_mem(ro.num, 7)]);
            let ll = Insn::LdrLit(spec_xr(16), p.lit(expect));
            let cm = Insn::Op("cmp"@, seq![spec_x(17), spec_x(16)]);
            let y1 = s1.code.with(tst);
            let y2 = y1.with(Insn::BCond(Cond::Eq, cold));
            let y3 = y2.with(ld);
            let y4 = y3.with(ll);
            let y5 = y4.with(cm);
            assert(c == y5.with(Insn::BCond(Cond::Ne, cold)));
            lemma_at(y5, Insn::BCond(Cond::Ne, cold), c);
            lemma_at(y4, cm, c);
            lemma_at(y3, ll, c);
            lemma_at(y2, ld, c);
            lemma_at(y1, Insn::BCond(Cond::Eq, cold), c);
            lemma_at(s1.code, tst, c);
            let e = lemma_sole(c, s, p, obj, w, 16, m);
            lemma_guard_label(s, s1, c, cold);
            lemma_length(s1.code, c);
            lemma_resume(c, n, m, j, e, end);
            let g = Cpu { f: tested(w, 3), ..e };
            lemma_next(c, j, e, j);
            assert(run(c, j, e, j + 1) == Ctl::At(g));
            lemma_next(c, j, e, j + 1);
            if w & 3 == 0 {
                assert(run(c, j, e, j + 2) == Ctl::To(cold, g));
                lemma_gone(c, j, e, j + 2, end, cold, g);
            } else {
                let found = (m.mem)(w - 1 + 8);
                assert(w - 1 + 8 == w + 7);
                let g1 = Cpu { x: g.x.update(17, found), ..g };
                lemma_next(c, j, e, j + 2);
                assert(run(c, j, e, j + 3) == Ctl::At(g1));
                let g2 = Cpu { x: g1.x.update(16, lw), ..g1 };
                lemma_next(c, j, e, j + 3);
                assert(run(c, j, e, j + 4) == Ctl::At(g2));
                let g3 = Cpu { f: difference(found, lw), ..g2 };
                lemma_next(c, j, e, j + 4);
                assert(run(c, j, e, j + 5) == Ctl::At(g3));
                lemma_next(c, j, e, j + 5);
            }
        },
        GuardShape::ValueTest => {
            let ll = Insn::LdrLit(spec_xr(17), p.lit(expect));
            let cm = Insn::Op("cmp"@, seq![Operand::Reg(ro), spec_x(17)]);
            let y1 = s1.code.with(ll);
            let y2 = y1.with(cm);
            assert(c == y2.with(Insn::BCond(Cond::Ne, cold)));
            lemma_at(y2, Insn::BCond(Cond::Ne, cold), c);
            lemma_at(y1, cm, c);
            lemma_at(s1.code, ll, c);
            let e = lemma_sole(c, s, p, obj, w, 16, m);
            lemma_guard_label(s, s1, c, cold);
            lemma_length(s1.code, c);
            lemma_resume(c, n, m, j, e, end);
            let g1 = Cpu { x: e.x.update(17, lw), ..e };
            lemma_next(c, j, e, j);
            assert(run(c, j, e, j + 1) == Ctl::At(g1));
            let g2 = Cpu { f: difference(w, lw), ..g1 };
            lemma_next(c, j, e, j + 1);
            assert(run(c, j, e, j + 2) == Ctl::At(g2));
            lemma_next(c, j, e, j + 2);
        },
    }
}

/// A label that stood before a sequence stands there still.
pub(crate) proof fn lemma_guard_label(s: St, s1: St, c: Code, l: Label)
    requires
        behind(s, l),
        grows(s.code, s1.code),
        grows(s1.code, c),
    ensures
        l.0 < c.labels.len(),
        c.labels[l.0 as int] matches Some(t) ==> t <= s.code.insns.len() && t <= s1.code.insns.len(),
        s.code.insns.len() <= s1.code.insns.len(),
{
    reveal(grows);
}

// ── Arithmetic ──────────────────────────────────────────────────────────

/// Arithmetic on two small integers, wherever they live, leaves the sum, the difference, the product,
/// the quotient rounded towards minus infinity or what it leaves, tagged, where that is a small integer;
/// else, and where a divisor is zero, control goes to the failure block. Bit operations work on the
/// tagged words. Where it multiplies, the second factor does not live in the destination's home.
#[verifier::spinoff_prover]
pub proof fn law_arithmetic(
    s: St,
    p: Plan,
    op: SmiOp,
    dst: VReg,
    a: VReg,
    b: VReg,
    fail: BlockId,
    following: Option<BlockId>,
    m: Cpu,
    va: int,
    vb: int,
)
    requires
        operable(p, s, m, dst, a, va, b, vb, fail),
        op is Mul ==> apart(p, dst, b),
    ensures
        ({
            let r = added(s, s.emit_op(p, Ir::SmiArith { op, dst, a, b, fail }, following), m);
            let bits = op is And || op is Or || op is Xor;
            let v = match op {
                SmiOp::Add => va + vb,
                SmiOp::Sub => va - vb,
                SmiOp::Mul => va * vb,
                SmiOp::Div => if vb > 0 {
                    va / vb
                } else {
                    (-va) / (-vb)
                },
                _ => if vb > 0 {
                    va - (va / vb) * vb
                } else {
                    va - ((-va) / (-vb)) * vb
                },
            };
            let fine = is_smi(v) && !((op is Div || op is Mod) && vb == 0);
            let w = match op {
                SmiOp::And => smi(va) & smi(vb),
                SmiOp::Or => smi(va) | smi(vb),
                SmiOp::Xor => smi(va) ^ smi(vb),
                _ => smi(v),
            };
            match r {
                Ctl::At(n) => (bits || fine) && settled(p, n, dst, w) && kept(p, m, n, dst),
                Ctl::To(l, n) => !bits && !fine && l == p.labels@[fail.0 as int] && kept(p, m, n, dst),
                _ => false,
            }
        }),
{
    reveal(St::emit_op);
    match op {
        SmiOp::Add | SmiOp::Sub => law_sums_are_checked(s, p, op, dst, a, b, fail, m, va, vb),
        SmiOp::Mul => law_products_are_checked(s, p, dst, a, b, fail, m, va, vb),
        SmiOp::Div | SmiOp::Mod => law_division_is_floored(s, p, op, dst, a, b, fail, m, va, vb),
        _ => law_bits_stay_tagged(s, p, op, dst, a, b, fail, m, va, vb),
    }
}

/// A shift by a count from -61 to 61, to the right where it is negative.
pub proof fn law_shifts(
    s: St,
    p: Plan,
    dst: VReg,
    a: VReg,
    count: VReg,
    fail: BlockId,
    following: Option<BlockId>,
    m: Cpu,
    va: int,
    vc: int,
)
    requires
        operable(p, s, m, dst, a, va, count, vc, fail),
    ensures
        ({
            let v = if vc >= 0 {
                va * pow2(vc as nat)
            } else {
                va / (pow2((-vc) as nat) as int)
            };
            match added(s, s.emit_op(p, Ir::SmiShift { dst, a, count, fail }, following), m) {
                Ctl::At(n) => -61 <= vc <= 61 && is_smi(v) && settled(p, n, dst, smi(v)) && kept(p, m, n, dst),
                Ctl::To(l, n) => !(-61 <= vc <= 61 && is_smi(v)) && l == p.labels@[fail.0 as int] && kept(p, m, n, dst),
                _ => false,
            }
        }),
{
    reveal(St::emit_op);
    law_shifts_are_checked(s, p, dst, a, count, fail, m, va, vc);
}

/// An operand that is no small integer, and is not known to be one, sends arithmetic and comparisons to
/// their failure block; nothing that lives in a register or a slot changes.
#[verifier::spinoff_prover]
pub proof fn law_other_operands(
    s: St,
    p: Plan,
    op: SmiOp,
    dst: VReg,
    a: VReg,
    b: VReg,
    fail: BlockId,
    following: Option<BlockId>,
    m: Cpu,
    wa: u64,
    wb: u64,
)
    requires
        words_operable(p, s, m, dst, a, wa, b, wb, fail),
        (wa & 3 != 0 && !p.smi_ok(a, s.pos)) || (wb & 3 != 0 && !p.smi_ok(b, s.pos)),
    ensures
        match added(s, s.emit_op(p, Ir::SmiArith { op, dst, a, b, fail }, following), m) {
            Ctl::To(l, n) => l == p.labels@[fail.0 as int] && quiet(p, m, n),
            _ => false,
        },
{
    reveal(St::emit_op);
    law_other_operands_fail(s, p, op, dst, a, b, fail, m, wa, wb);
}

// ── Fields ──────────────────────────────────────────────────────────────

/// The address at some distance from a word, as the machine adds it.
pub(crate) proof fn lemma_address(w: u64, d: int)
    requires
        0 <= w + d < 0x1_0000_0000_0000_0000,
        is_signed(d),
    ensures
        word(signed(w) + d) == w + d,
        word(signed(w) + signed(word(d))) == w + d,
        word(signed(w) - signed(word(-d))) == w + d,
{
    lemma_word(d);
    lemma_word(-d);
}

/// A field is read from its place in the object: as many bytes on as its offset says, from the object's
/// start, which is one below the tagged pointer.
#[verifier::spinoff_prover]
pub proof fn law_fields_are_read(
    s: St,
    p: Plan,
    dst: VReg,
    obj: VReg,
    byte_off: i32,
    following: Option<BlockId>,
    m: Cpu,
    w: u64,
)
    requires
        two_held(p, s, m, obj, w, obj, w),
        lodged(p, dst),
        w & 3 == 1,
    ensures
        match added(s, s.emit_op(p, Ir::LoadField { dst, obj, byte_off }, following), m) {
            Ctl::At(n) => settled(p, n, dst, (m.mem)(w - 1 + byte_off)) && kept(p, m, n, dst),
            _ => false,
        },
{
    reveal(St::emit_op);
    lemma_mnemonics();
    let t = s.emit_op(p, Ir::LoadField { dst, obj, byte_off }, following);
    let c = t.code;
    let n = s.code.insns.len() as int;
    let (ra, s1) = s.resolve(p, obj, 16);
    let j = s1.code.insns.len() as int;
    let f = dest(p, dst).num;
    assert(dest(p, dst) == spec_xr(f));
    let off = (byte_off - 1) as i64;
    let v = (m.mem)(w - 1 + byte_off);
    lemma_grows_itself(c);
    assert(w >= 1) by {
        assert(w & 3 == 1 ==> w >= 1) by (bit_vector);
    }
    if -256 <= off <= 255 {
        let i = Insn::Op("ldur"@, seq![spec_x(f), spec_mem(ra.num, off)]);
        let y = s1.i2("ldur"@, spec_x(f), spec_mem(ra.num, off));
        assert(t == y.commit(p, dst, spec_xr(f)));
        lemma_grows_commit(y, p, dst, f);
        lemma_at(s1.code, i, c);
        let e = lemma_sole(c, s, p, obj, w, 16, m);
        assert(w + off == w - 1 + byte_off);
        lemma_next(c, j, e, j);
        assert(run(c, j, e, j + 1) == Ctl::At(Cpu { x: e.x.update(f as int, v), ..e }));
        lemma_finish(c, n, m, j, e, y, p, dst, f, v, Label(0), true);
    } else {
        let i1 = Insn::Op("sub"@, seq![spec_x(16), Operand::Reg(ra), spec_imm(1)]);
        let i2 = Insn::Op("ldr"@, seq![spec_x(f), spec_mem(16, byte_off as i64)]);
        let y1 = s1.i3("sub"@, spec_x(16), Operand::Reg(ra), spec_imm(1));
        let y2 = y1.i2("ldr"@, spec_x(f), spec_mem(16, byte_off as i64));
        assert(t == y2.commit(p, dst, spec_xr(f)));
        lemma_grows_commit(y2, p, dst, f);
        lemma_at(y1.code, i2, c);
        lemma_at(s1.code, i1, c);
        let e = lemma_sole(c, s, p, obj, w, 16, m);
        lemma_address(w, -1);
        let g1 = Cpu { x: e.x.update(16, (w - 1) as u64), ..e };
        lemma_next(c, j, e, j);
        assert(run(c, j, e, j + 1) == Ctl::At(g1));
        lemma_next(c, j, e, j + 1);
        assert(run(c, j, e, j + 2) == Ctl::At(Cpu { x: g1.x.update(f as int, v), ..g1 }));
        lemma_finish(c, n, m, j, e, y2, p, dst, f, v, Label(0), true);
    }
}

/// Whether a store makes an object of the old space hold one of the young space: such a store is noted.
pub open spec fn crosses(m: Cpu, object: u64, value: u64) -> bool {
    let old_start = (m.mem)(m.x[28] + 16);
    object >= old_start && value & 3 != 0 && value < old_start
}

/// The memory after a card is dirtied for a place: the byte at the card's index from the table's base.
pub open spec fn noted(m: Cpu, mem: spec_fn(int) -> u64, place: int) -> spec_fn(int) -> u64 {
    byte_written(mem, (m.mem)(m.x[28] + 24) + place / 512, 0)
}

/// The block of registers that compiled code reads lies apart from a place that is written.
pub open spec fn clear_of_block(m: Cpu, place: int) -> bool {
    place + 8 <= m.x[28] || m.x[28] + 40 <= place
}

/// The code of a barrier, from instruction `k` on.
pub open spec fn is_barrier(c: Code, k: int, robj: u8, rval: u8, base: u8, off: i64, skip: Label) -> bool {
    &&& c.insns[k] == Insn::Op("ldr"@, seq![spec_x(20), spec_mem(28, 16)])
    &&& c.insns[k + 1] == Insn::Op("cmp"@, seq![spec_x(robj), spec_x(20)])
    &&& c.insns[k + 2] == Insn::BCond(Cond::Lo, skip)
    &&& c.insns[k + 3] == Insn::Op("tst"@, seq![spec_x(rval), spec_imm(3)])
    &&& c.insns[k + 4] == Insn::BCond(Cond::Eq, skip)
    &&& c.insns[k + 5] == Insn::Op("cmp"@, seq![spec_x(rval), spec_x(20)])
    &&& c.insns[k + 6] == Insn::BCond(Cond::Hs, skip)
    &&& c.insns[k + 7] == Insn::Op("add"@, seq![spec_x(19), spec_x(base), spec_imm(off)])
    &&& c.insns[k + 8] == Insn::Op("lsr"@, seq![spec_x(19), spec_x(19), spec_imm(9)])
    &&& c.insns[k + 9] == Insn::Op("ldr"@, seq![spec_x(20), spec_mem(28, 24)])
    &&& c.insns[k + 10] == Insn::Op("add"@, seq![spec_x(20), spec_x(20), spec_x(19)])
    &&& c.insns[k + 11] == Insn::Op("strb"@, seq![spec_x(31), spec_mem(20, 0)])
    &&& skip.0 < c.labels.len()
    &&& c.labels[skip.0 as int] == Some((k + 12) as nat)
}

#[verifier::spinoff_prover]
pub(crate) proof fn lemma_barrier_code(s: St, robj: u8, rval: u8, base: u8, off: i64)
    requires
        s.code.labels.len() < u32::MAX,
    ensures
        ({
            let z = s.card_barrier(spec_xr(robj), spec_xr(rval), spec_x(base), off);
            &&& z.code.insns.len() == s.code.insns.len() + 12
            &&& is_barrier(z.code, s.code.insns.len() as int, robj, rval, base, off, s.code.next_label())
            &&& grows(s.code, z.code)
            &&& z == (St { code: z.code, ..s })
        }),
{
    reveal(grows);
}

pub(crate) proof fn lemma_barrier_grown(z: Code, c: Code, k: int, robj: u8, rval: u8, base: u8, off: i64, skip: Label)
    requires
        is_barrier(z, k, robj, rval, base, off, skip),
        0 <= k,
        z.insns.len() == k + 12,
        grows(z, c),
    ensures
        is_barrier(c, k, robj, rval, base, off, skip),
{
    reveal(grows);
    assert(c.insns[k + 0] == z.insns[k + 0]);
}

/// The part of a barrier that dirties the card.
#[verifier::spinoff_prover]
pub(crate) proof fn lemma_barrier_marks(c: Code, k: int, base: u8, off: i64, g: Cpu, g4: Cpu, m: Cpu, place: int) -> (e: Cpu)
    requires
        0 <= k,
        c.insns[k + 7] == Insn::Op("add"@, seq![spec_x(19), spec_x(base), spec_imm(off)]),
        c.insns[k + 8] == Insn::Op("lsr"@, seq![spec_x(19), spec_x(19), spec_imm(9)]),
        c.insns[k + 9] == Insn::Op("ldr"@, seq![spec_x(20), spec_mem(28, 24)]),
        c.insns[k + 10] == Insn::Op("add"@, seq![spec_x(20), spec_x(20), spec_x(19)]),
        c.insns[k + 11] == Insn::Op("strb"@, seq![spec_x(31), spec_mem(20, 0)]),
        run(c, k, g, k + 7) == Ctl::At(g4),
        g4.x.len() == 32,
        base < 29,
        base != 20,
        g4.x[28] == m.x[28],
        (g4.mem)(m.x[28] + 24) == (m.mem)(m.x[28] + 24),
        place == g4.x[base as int] + off,
        0 <= place < 0x1_0000_0000_0000_0000,
        (m.mem)(m.x[28] + 24) + place / 512 < 0x1_0000_0000_0000_0000,
    ensures
        run(c, k, g, k + 12) == Ctl::At(e),
        e.x.len() == 32,
        forall|r: int| 0 <= r < 32 && r != 19 && r != 20 ==> #[trigger] e.x[r] == g4.x[r],
        e.mem == noted(m, g4.mem, place),
{
    lemma_mnemonics();
    lemma_word(9);
    lemma2_to64();
    lemma_address(g4.x[base as int], off as int);
    let g5 = Cpu { x: g4.x.update(19, place as u64), ..g4 };
    lemma_next(c, k, g, k + 7);
    assert(run(c, k, g, k + 8) == Ctl::At(g5));
    let card = place / 512;
    let g6 = Cpu { x: g5.x.update(19, card as u64), ..g5 };
    lemma_next(c, k, g, k + 8);
    assert(run(c, k, g, k + 9) == Ctl::At(g6));
    let table = (m.mem)(m.x[28] + 24);
    let g7 = Cpu { x: g6.x.update(20, table), ..g6 };
    lemma_next(c, k, g, k + 9);
    assert(run(c, k, g, k + 10) == Ctl::At(g7));
    lemma_address(table, card);
    lemma_word(card);
    assert(signed(card as u64) == card);
    let at = (table + card) as u64;
    let g8 = Cpu { x: g7.x.update(20, at), ..g7 };
    lemma_next(c, k, g, k + 10);
    assert(run(c, k, g, k + 11) == Ctl::At(g8));
    let g9 = Cpu { mem: byte_written(g4.mem, table + card, 0), ..g8 };
    lemma_next(c, k, g, k + 11);
    assert(run(c, k, g, k + 12) == Ctl::At(g9));
    g9
}

/// The barrier of a store: the card of the place is dirtied exactly where the store crosses from the old
/// space to the young one.
#[verifier::spinoff_prover]
pub(crate) proof fn lemma_barrier(
    c: Code,
    k: int,
    robj: u8,
    rval: u8,
    base: u8,
    off: i64,
    skip: Label,
    g: Cpu,
    m: Cpu,
    place: int,
) -> (e: Cpu)
    requires
        0 <= k,
        is_barrier(c, k, robj, rval, base, off, skip),
        g.x.len() == 32,
        robj < 29,
        robj != 19,
        robj != 20,
        rval < 29,
        rval != 19,
        rval != 20,
        base < 29,
        base != 20,
        g.x[28] == m.x[28],
        (g.mem)(m.x[28] + 16) == (m.mem)(m.x[28] + 16),
        (g.mem)(m.x[28] + 24) == (m.mem)(m.x[28] + 24),
        place == g.x[base as int] + off,
        0 <= place < 0x1_0000_0000_0000_0000,
        (m.mem)(m.x[28] + 24) + place / 512 < 0x1_0000_0000_0000_0000,
    ensures
        run(c, k, g, k + 12) == Ctl::At(e),
        e.x.len() == 32,
        forall|r: int| 0 <= r < 32 && r != 19 && r != 20 ==> #[trigger] e.x[r] == g.x[r],
        e.mem == if crosses(m, g.x[robj as int], g.x[rval as int]) {
            noted(m, g.mem, place)
        } else {
            g.mem
        },
{
    lemma_mnemonics();
    lemma_word(3);
    let object = g.x[robj as int];
    let value = g.x[rval as int];
    let old_start = (m.mem)(m.x[28] + 16);
    let g1 = Cpu { x: g.x.update(20, old_start), ..g };
    lemma_next(c, k, g, k);
    assert(run(c, k, g, k + 1) == Ctl::At(g1));
    let g2 = Cpu { f: difference(object, old_start), ..g1 };
    lemma_next(c, k, g, k + 1);
    assert(run(c, k, g, k + 2) == Ctl::At(g2));
    lemma_next(c, k, g, k + 2);
    if object < old_start {
        assert(run(c, k, g, k + 3) == Ctl::To(skip, g2));
        lemma_gone(c, k, g, k + 3, k + 11, skip, g2);
        lemma_next(c, k, g, k + 11);
        g2
    } else {
        assert(run(c, k, g, k + 3) == Ctl::At(g2));
        let g3 = Cpu { f: tested(value, 3), ..g2 };
        lemma_next(c, k, g, k + 3);
        assert(run(c, k, g, k + 4) == Ctl::At(g3));
        lemma_next(c, k, g, k + 4);
        if value & 3 == 0 {
            assert(run(c, k, g, k + 5) == Ctl::To(skip, g3));
            lemma_gone(c, k, g, k + 5, k + 11, skip, g3);
            lemma_next(c, k, g, k + 11);
            g3
        } else {
            assert(run(c, k, g, k + 5) == Ctl::At(g3));
            let g4 = Cpu { f: difference(value, old_start), ..g3 };
            lemma_next(c, k, g, k + 5);
            assert(run(c, k, g, k + 6) == Ctl::At(g4));
            lemma_next(c, k, g, k + 6);
            if value >= old_start {
                assert(run(c, k, g, k + 7) == Ctl::To(skip, g4));
                lemma_gone(c, k, g, k + 7, k + 11, skip, g4);
                lemma_next(c, k, g, k + 11);
                g4
            } else {
                assert(run(c, k, g, k + 7) == Ctl::At(g4));
                lemma_barrier_marks(c, k, base, off, g, g4, m, place)
            }
        }
    }
}

/// An operand's register is a plain one.
pub(crate) proof fn lemma_registers(p: Plan, s: St, v: VReg, sc: u8)
    ensures
        s.resolve(p, v, sc).0 == spec_xr(s.resolve(p, v, sc).0.num),
{
}

/// A field is written at its place in the object, and nowhere else; with a barrier, the place's card is
/// dirtied exactly where an old object comes to hold a young one.
#[verifier::spinoff_prover]
pub proof fn law_fields_are_written(
    s: St,
    p: Plan,
    obj: VReg,
    byte_off: i32,
    val: VReg,
    barrier: bool,
    following: Option<BlockId>,
    m: Cpu,
    w: u64,
    v: u64,
)
    requires
        two_held(p, s, m, obj, w, val, v),
        !p.r1a_free@.contains(28),
        w & 3 == 1,
        1 <= byte_off,
        w + byte_off < 0x1_0000_0000_0000_0000,
        clear_of_block(m, w - 1 + byte_off),
        (m.mem)(m.x[28] + 24) + (w - 1 + byte_off) / 512 < 0x1_0000_0000_0000_0000,
    ensures
        ({
            let place = w - 1 + byte_off;
            let after = written(m.mem, place, v);
            match added(s, s.emit_op(p, Ir::StoreField { obj, byte_off, val, barrier }, following), m) {
                Ctl::At(n) => n.mem == (if barrier && crosses(m, w, v) {
                    noted(m, after, place)
                } else {
                    after
                }) && forall|r: u8|
                    r < 32 && !scratch(r) && !p.r1a_free@.contains(r) ==> #[trigger] n.x[r as int] == m.x[r as int],
                _ => false,
            }
        }),
{
    reveal(St::emit_op);
    lemma_mnemonics();
    let t = s.emit_op(p, Ir::StoreField { obj, byte_off, val, barrier }, following);
    let c = t.code;
    let n = s.code.insns.len() as int;
    let (ro, s1) = s.resolve(p, obj, 16);
    let (rv, s2) = s1.resolve(p, val, 17);
    let j = s2.code.insns.len() as int;
    let off = (byte_off - 1) as i64;
    let place = w - 1 + byte_off;
    let end = c.insns.len() as int;
    let near = -256 <= off <= 255;
    let y1 = s2.i3("add"@, spec_x(19), Operand::Reg(ro), spec_imm(off));
    let y = if near {
        s2.i2("stur"@, Operand::Reg(rv), spec_mem(ro.num, off))
    } else {
        y1.i2("str"@, Operand::Reg(rv), spec_mem(19, 0))
    };
    let r28: u8 = 28;
    lemma_grows_itself(c);
    let z = y.card_barrier(ro, rv, Operand::Reg(ro), off);
    lemma_grows_resolve(s, p, obj, 16);
    lemma_grows_resolve(s1, p, val, 17);
    lemma_registers(p, s, obj, 16);
    lemma_registers(p, s1, val, 17);
    if barrier {
        assert(t == z);
        lemma_barrier_code(y, ro.num, rv.num, ro.num, off);
    } else {
        assert(t == y);
    }
    if near {
        lemma_at(s2.code, Insn::Op("stur"@, seq![Operand::Reg(rv), spec_mem(ro.num, off)]), c);
    } else {
        lemma_at(y1.code, Insn::Op("str"@, seq![Operand::Reg(rv), spec_mem(19, 0)]), c);
        lemma_at(s2.code, Insn::Op("add"@, seq![spec_x(19), Operand::Reg(ro), spec_imm(off)]), c);
    }
    let e = lemma_two(c, s, p, obj, w, val, v, m);
    assert(ro == spec_xr(ro.num) && rv == spec_xr(rv.num));
    let after = written(m.mem, place, v);
    let k = y.code.insns.len() as int;
    assert(w + off == place);
    let g = if near {
        lemma_next(c, j, e, j);
        Cpu { mem: after, ..e }
    } else {
        lemma_address(w, off as int);
        let g1 = Cpu { x: e.x.update(19, place as u64), ..e };
        lemma_next(c, j, e, j);
        assert(run(c, j, e, j + 1) == Ctl::At(g1));
        lemma_next(c, j, e, j + 1);
        Cpu { mem: after, ..g1 }
    };
    assert(run(c, j, e, k) == Ctl::At(g));
    lemma_resume(c, n, m, j, e, k);
    if barrier {
        assert(e.x[r28 as int] == m.x[r28 as int]);
        lemma_barrier_grown(z.code, c, k, ro.num, rv.num, ro.num, off, y.code.next_label());
        let h = lemma_barrier(c, k, ro.num, rv.num, ro.num, off, y.code.next_label(), g, m, place);
        lemma_resume(c, n, m, k, g, end);
    }
}

// ── Indexed access ──────────────────────────────────────────────────────

pub(crate) proof fn lemma_index_guard_grown(z: Code, c: Code, k: int, ro: u8, ri: u8, klass: LiteralId, size_off: i64, l: Label)
    requires
        is_index_guard(z, k, ro, ri, klass, size_off, l),
        0 <= k,
        z.insns.len() == k + 13,
        grows(z, c),
    ensures
        is_index_guard(c, k, ro, ri, klass, size_off, l),
{
    reveal(grows);
    assert(c.insns[k + 0] == z.insns[k + 0]);
}

/// The tagged form of an index in range is positive.
pub(crate) proof fn lemma_index(wi: u64, size: int)
    requires
        wi & 3 == 0,
        is_smi(size),
        1 <= signed(wi) / 4 <= size,
    ensures
        signed(wi) == wi,
        wi == 4 * (signed(wi) / 4),
        wi == smi(signed(wi) / 4),
{
    assert(wi & 3 == 0 ==> wi % 4 == 0) by (bit_vector);
}

/// The last part of an element's read: from the array and the index to the element.
#[verifier::spinoff_prover]
pub(crate) proof fn lemma_element(c: Code, j: int, e: Cpu, k: int, g: Cpu, f: u8, ra: u8, ri: u8, wa: u64, wi: u64, i: int) -> (h: Cpu)
    requires
        0 <= j <= k,
        run(c, j, e, k) == Ctl::At(g),
        g.x.len() == 32,
        f < 31,
        ra < 31,
        ra != 19,
        ri < 31,
        ri != 19,
        g.x[ra as int] == wa,
        g.x[ri as int] == wi,
        wi == 4 * i,
        signed(wi) == wi,
        1 <= i,
        wa + 8 * i + 16 < 0x1_0000_0000_0000_0000,
        c.insns[k] == Insn::Op("add"@, seq![spec_x(19), spec_x(ra), spec_x(ri)]),
        c.insns[k + 1] == Insn::Op("add"@, seq![spec_x(19), spec_x(19), spec_x(ri)]),
        c.insns[k + 2] == Insn::Op("ldur"@, seq![spec_x(f), spec_mem(19, 15)]),
    ensures
        run(c, j, e, k + 3) == Ctl::At(h),
        h.x.len() == 32,
        h.mem == g.mem,
        h.x[f as int] == (g.mem)(wa + 15 + 8 * i),
        forall|r: int| 0 <= r < 32 && r != 19 && r != f ==> #[trigger] h.x[r] == g.x[r],
{
    lemma_mnemonics();
    let v = (g.mem)(wa + 15 + 8 * i);
    lemma_address(wa, wi as int);
    let a1 = (wa + wi) as u64;
    let g1 = Cpu { x: g.x.update(19, a1), ..g };
    lemma_next(c, j, e, k);
    assert(run(c, j, e, k + 1) == Ctl::At(g1));
    lemma_address(a1, wi as int);
    let a2 = (wa + wi + wi) as u64;
    let g2 = Cpu { x: g1.x.update(19, a2), ..g1 };
    lemma_next(c, j, e, k + 1);
    assert(run(c, j, e, k + 2) == Ctl::At(g2));
    assert(a2 + 15 == wa + 15 + 8 * i);
    let g3 = Cpu { x: g2.x.update(f as int, v), ..g2 };
    lemma_next(c, j, e, k + 2);
    assert(run(c, j, e, k + 3) == Ctl::At(g3));
    g3
}

/// The last part of a byte's read.
#[verifier::spinoff_prover]
pub(crate) proof fn lemma_byte(
    c: Code,
    j: int,
    e: Cpu,
    k: int,
    g: Cpu,
    f: u8,
    ra: u8,
    ri: u8,
    wa: u64,
    wi: u64,
    i: int,
    to: i64,
) -> (h: Cpu)
    requires
        0 <= j <= k,
        run(c, j, e, k) == Ctl::At(g),
        g.x.len() == 32,
        f < 31,
        ra < 31,
        ra != 19,
        ri < 31,
        g.x[ra as int] == wa,
        g.x[ri as int] == wi,
        wi == 4 * i,
        signed(wi) == wi,
        1 <= i,
        is_smi(i),
        wa + i < 0x1_0000_0000_0000_0000,
        c.insns[k] == Insn::Op("asr"@, seq![spec_x(19), spec_x(ri), spec_imm(2)]),
        c.insns[k + 1] == Insn::Op("add"@, seq![spec_x(19), spec_x(19), spec_x(ra)]),
        c.insns[k + 2] == Insn::Op("ldurb"@, seq![spec_x(f), spec_mem(19, to)]),
        c.insns[k + 3] == Insn::Op("lsl"@, seq![spec_x(f), spec_x(f), spec_imm(2)]),
    ensures
        run(c, j, e, k + 4) == Ctl::At(h),
        h.x.len() == 32,
        h.mem == g.mem,
        h.x[f as int] == smi(((g.mem)(wa + i + to) % 256) as int),
        forall|r: int| 0 <= r < 32 && r != 19 && r != f ==> #[trigger] h.x[r] == g.x[r],
{
    lemma_mnemonics();
    lemma_quarter(wi, 2);
    lemma_word(2);
    lemma_word(i);
    let g1 = Cpu { x: g.x.update(19, word(i)), ..g };
    lemma_next(c, j, e, k);
    assert(run(c, j, e, k + 1) == Ctl::At(g1));
    lemma_address(wa, i);
    let a = (wa + i) as u64;
    let g2 = Cpu { x: g1.x.update(19, a), ..g1 };
    lemma_next(c, j, e, k + 1);
    assert(run(c, j, e, k + 2) == Ctl::At(g2));
    let byte = (g.mem)(wa + i + to) % 256;
    let g3 = Cpu { x: g2.x.update(f as int, byte as u64), ..g2 };
    lemma_next(c, j, e, k + 2);
    assert(run(c, j, e, k + 3) == Ctl::At(g3));
    lemma_quarter(byte as u64, 2);
    let g4 = Cpu { x: g3.x.update(f as int, smi(byte as int)), ..g3 };
    lemma_next(c, j, e, k + 3);
    assert(run(c, j, e, k + 4) == Ctl::At(g4));
    g4
}

/// An element is read from its place: the first one lies behind the object's two header words and the
/// word of its size. An access that is out of range, or not to an object of the class, goes to the
/// failure block.
#[verifier::spinoff_prover]
#[verifier::rlimit(60)]
pub proof fn law_elements_are_read(
    s: St,
    p: Plan,
    dst: VReg,
    arr: VReg,
    idx: VReg,
    klass: PoolLit,
    fail: BlockId,
    following: Option<BlockId>,
    m: Cpu,
    wa: u64,
    wi: u64,
    size: int,
)
    requires
        two_held(p, s, m, arr, wa, idx, wi),
        lodged(p, dst),
        behind(s, p.labels@[fail.0 as int]),
        is_smi(size),
        0 <= size,
        wa & 3 == 1 && class_word(m, wa) == lit_word(p, s, klass) ==> (m.mem)(wa - 1 + 16) == smi(size) && wa + 8 * size + 16
            < 0x1_0000_0000_0000_0000,
    ensures
        ({
            let i = signed(wi) / 4;
            let fits = wa & 3 == 1 && (m.mem)(wa - 1 + 8) == lit_word(p, s, klass) && wi & 3 == 0 && 1 <= i <= size;
            match added(s, s.emit_op(p, Ir::ArrayAt { dst, arr, idx, klass, fail }, following), m) {
                Ctl::At(n) => fits && settled(p, n, dst, (m.mem)(wa - 1 + 24 + 8 * (i - 1))) && kept(p, m, n, dst),
                Ctl::To(l, n) => !fits && l == p.labels@[fail.0 as int] && kept(p, m, n, dst),
                _ => false,
            }
        }),
{
    reveal(St::emit_op);
    lemma_mnemonics();
    let t = s.emit_op(p, Ir::ArrayAt { dst, arr, idx, klass, fail }, following);
    let c = t.code;
    let n = s.code.insns.len() as int;
    let l = p.labels@[fail.0 as int];
    let (ra, s1) = s.resolve(p, arr, 16);
    let (ri, s2) = s1.resolve(p, idx, 17);
    let j = s2.code.insns.len() as int;
    let f = dest(p, dst).num;
    assert(dest(p, dst) == spec_xr(f));
    let u = s2.indexed_guards(ra, ri, p.lit(klass), 15, l);
    let y1 = u.i3("add"@, spec_x(19), Operand::Reg(ra), Operand::Reg(ri));
    let y2 = y1.i3("add"@, spec_x(19), spec_x(19), Operand::Reg(ri));
    let y3 = y2.i2("ldur"@, spec_x(f), spec_mem(19, 15));
    assert(t == y3.commit(p, dst, spec_xr(f)));
    lemma_grows_commit(y3, p, dst, f);
    lemma_grows_itself(c);
    lemma_at(y2.code, Insn::Op("ldur"@, seq![spec_x(f), spec_mem(19, 15)]), c);
    lemma_at(y1.code, Insn::Op("add"@, seq![spec_x(19), spec_x(19), Operand::Reg(ri)]), c);
    lemma_at(u.code, Insn::Op("add"@, seq![spec_x(19), Operand::Reg(ra), Operand::Reg(ri)]), c);
    assert(grows(s2.code, u.code)) by {
        reveal(grows);
    }
    lemma_grows(s2.code, u.code, c);
    let e = lemma_two(c, s, p, arr, wa, idx, wi, m);
    lemma_guard_label(s, s2, c, l);
    assert(l.0 < s2.code.labels.len() && s2.code.labels[l.0 as int] == c.labels[l.0 as int]) by {
        reveal(grows);
    }
    lemma_index_guard_code(s2, ra.num, ri.num, p.lit(klass), 15, l);
    lemma_index_guard_grown(u.code, c, j, ra.num, ri.num, p.lit(klass), 15, l);
    lemma_length(s2.code, c);
    let i = signed(wi) / 4;
    assert(wa - 1 + 16 == wa + 15 && wa - 1 + 8 == wa + 7);
    lemma_index_guard_run(c, j, ra.num, ri.num, p.lit(klass), 15, l, e, size);
    let k = j + 13;
    let fits = index_fits(e, wa, wi, lit_word(p, s, klass), size);
    let v = (m.mem)(wa + 15 + 8 * i);
    match run(c, j, e, k) {
        Ctl::At(g) => {
            lemma_index(wi, size);
            let h = lemma_element(c, j, e, k, g, f, ra.num, ri.num, wa, wi, i);
        },
        Ctl::To(to, g) => {
            lemma_gone(c, j, e, k, k + 3, l, g);
        },
        _ => {},
    }
    lemma_finish(c, n, m, j, e, y3, p, dst, f, v, l, fits);
    assert(wa - 1 + 24 + 8 * (i - 1) == wa + 15 + 8 * i);
}

/// The same where the access is known to be in range.
#[verifier::spinoff_prover]
pub proof fn law_known_elements_are_read(
    s: St,
    p: Plan,
    dst: VReg,
    arr: VReg,
    idx: VReg,
    following: Option<BlockId>,
    m: Cpu,
    wa: u64,
    i: int,
)
    requires
        two_held(p, s, m, arr, wa, idx, smi(i)),
        lodged(p, dst),
        is_smi(i),
        1 <= i,
        wa + 8 * i + 16 < 0x1_0000_0000_0000_0000,
    ensures
        match added(s, s.emit_op(p, Ir::ArrayAtNC { dst, arr, idx }, following), m) {
            Ctl::At(n) => settled(p, n, dst, (m.mem)(wa - 1 + 24 + 8 * (i - 1))) && kept(p, m, n, dst),
            _ => false,
        },
{
    reveal(St::emit_op);
    lemma_mnemonics();
    let t = s.emit_op(p, Ir::ArrayAtNC { dst, arr, idx }, following);
    let c = t.code;
    let n = s.code.insns.len() as int;
    let (ra, s1) = s.resolve(p, arr, 16);
    let (ri, s2) = s1.resolve(p, idx, 17);
    let j = s2.code.insns.len() as int;
    let f = dest(p, dst).num;
    assert(dest(p, dst) == spec_xr(f));
    let y1 = s2.i3("add"@, spec_x(19), Operand::Reg(ra), Operand::Reg(ri));
    let y2 = y1.i3("add"@, spec_x(19), spec_x(19), Operand::Reg(ri));
    let y3 = y2.i2("ldur"@, spec_x(f), spec_mem(19, 15));
    assert(t == y3.commit(p, dst, spec_xr(f)));
    lemma_grows_commit(y3, p, dst, f);
    lemma_grows_itself(c);
    lemma_at(y2.code, Insn::Op("ldur"@, seq![spec_x(f), spec_mem(19, 15)]), c);
    lemma_at(y1.code, Insn::Op("add"@, seq![spec_x(19), spec_x(19), Operand::Reg(ri)]), c);
    lemma_at(s2.code, Insn::Op("add"@, seq![spec_x(19), Operand::Reg(ra), Operand::Reg(ri)]), c);
    let wi = smi(i);
    let e = lemma_two(c, s, p, arr, wa, idx, wi, m);
    lemma_tag(i);
    let v = (m.mem)(wa + 15 + 8 * i);
    lemma_address(wa, wi as int);
    let a1 = (wa + wi) as u64;
    let g1 = Cpu { x: e.x.update(19, a1), ..e };
    lemma_next(c, j, e, j);
    assert(run(c, j, e, j + 1) == Ctl::At(g1));
    lemma_address(a1, wi as int);
    let a2 = (wa + wi + wi) as u64;
    let g2 = Cpu { x: g1.x.update(19, a2), ..g1 };
    lemma_next(c, j, e, j + 1);
    assert(run(c, j, e, j + 2) == Ctl::At(g2));
    assert(a2 + 15 == wa + 15 + 8 * i);
    let g3 = Cpu { x: g2.x.update(f as int, v), ..g2 };
    lemma_next(c, j, e, j + 2);
    assert(run(c, j, e, j + 3) == Ctl::At(g3));
    lemma_finish(c, n, m, j, e, y3, p, dst, f, v, Label(0), true);
    assert(wa - 1 + 24 + 8 * (i - 1) == wa + 15 + 8 * i);
}

/// A byte is read from its place in the object's bytes, the first one at the tail's offset, and left as a
/// small integer. `size` is the number of bytes, which the word at the length's offset holds.
#[verifier::spinoff_prover]
#[verifier::rlimit(60)]
pub proof fn law_bytes_are_read(
    s: St,
    p: Plan,
    dst: VReg,
    obj: VReg,
    idx: VReg,
    klass: PoolLit,
    len_off: i32,
    tail_off: i32,
    fail: BlockId,
    following: Option<BlockId>,
    m: Cpu,
    wa: u64,
    wi: u64,
    size: int,
)
    requires
        two_held(p, s, m, obj, wa, idx, wi),
        lodged(p, dst),
        behind(s, p.labels@[fail.0 as int]),
        is_smi(size),
        0 <= size,
        i32::MIN < len_off,
        i32::MIN + 1 < tail_off,
        wa & 3 == 1 && class_word(m, wa) == lit_word(p, s, klass) ==> (m.mem)(wa - 1 + len_off) == smi(size) && wa + size
            < 0x1_0000_0000_0000_0000,
    ensures
        ({
            let i = signed(wi) / 4;
            let fits = wa & 3 == 1 && (m.mem)(wa - 1 + 8) == lit_word(p, s, klass) && wi & 3 == 0 && 1 <= i <= size;
            let byte = (m.mem)(wa - 1 + tail_off + (i - 1)) % 256;
            match added(s, s.emit_op(p, Ir::ByteAt { dst, obj, idx, klass, len_off, tail_off, fail }, following), m) {
                Ctl::At(n) => fits && settled(p, n, dst, smi(byte as int)) && kept(p, m, n, dst),
                Ctl::To(l, n) => !fits && l == p.labels@[fail.0 as int] && kept(p, m, n, dst),
                _ => false,
            }
        }),
{
    reveal(St::emit_op);
    lemma_mnemonics();
    let t = s.emit_op(p, Ir::ByteAt { dst, obj, idx, klass, len_off, tail_off, fail }, following);
    let c = t.code;
    let n = s.code.insns.len() as int;
    let l = p.labels@[fail.0 as int];
    let (ra, s1) = s.resolve(p, obj, 16);
    let (ri, s2) = s1.resolve(p, idx, 17);
    let j = s2.code.insns.len() as int;
    let f = dest(p, dst).num;
    assert(dest(p, dst) == spec_xr(f));
    let lo = (len_off - 1) as i64;
    let to = (tail_off - 2) as i64;
    let u = s2.indexed_guards(ra, ri, p.lit(klass), lo, l);
    let y1 = u.i3("asr"@, spec_x(19), Operand::Reg(ri), spec_imm(2));
    let y2 = y1.i3("add"@, spec_x(19), spec_x(19), Operand::Reg(ra));
    let y3 = y2.i2("ldurb"@, spec_x(f), spec_mem(19, to));
    let y4 = y3.i3("lsl"@, spec_x(f), spec_x(f), spec_imm(2));
    assert(t == y4.commit(p, dst, spec_xr(f)));
    lemma_grows_commit(y4, p, dst, f);
    lemma_grows_itself(c);
    lemma_at(y3.code, Insn::Op("lsl"@, seq![spec_x(f), spec_x(f), spec_imm(2)]), c);
    lemma_at(y2.code, Insn::Op("ldurb"@, seq![spec_x(f), spec_mem(19, to)]), c);
    lemma_at(y1.code, Insn::Op("add"@, seq![spec_x(19), spec_x(19), Operand::Reg(ra)]), c);
    lemma_at(u.code, Insn::Op("asr"@, seq![spec_x(19), Operand::Reg(ri), spec_imm(2)]), c);
    assert(grows(s2.code, u.code)) by {
        reveal(grows);
    }
    lemma_grows(s2.code, u.code, c);
    let e = lemma_two(c, s, p, obj, wa, idx, wi, m);
    lemma_guard_label(s, s2, c, l);
    assert(l.0 < s2.code.labels.len() && s2.code.labels[l.0 as int] == c.labels[l.0 as int]) by {
        reveal(grows);
    }
    lemma_index_guard_code(s2, ra.num, ri.num, p.lit(klass), lo, l);
    lemma_index_guard_grown(u.code, c, j, ra.num, ri.num, p.lit(klass), lo, l);
    lemma_length(s2.code, c);
    let i = signed(wi) / 4;
    assert(wa - 1 + 8 == wa + 7 && wa - 1 + len_off == wa + lo);
    lemma_index_guard_run(c, j, ra.num, ri.num, p.lit(klass), lo, l, e, size);
    let k = j + 13;
    let fits = index_fits(e, wa, wi, lit_word(p, s, klass), size);
    let byte = (m.mem)(wa - 1 + tail_off + (i - 1)) % 256;
    let w = smi(byte as int);
    match run(c, j, e, k) {
        Ctl::At(g) => {
            lemma_index(wi, size);
            let h = lemma_byte(c, j, e, k, g, f, ra.num, ri.num, wa, wi, i, to);
            assert(wa + i + to == wa - 1 + tail_off + (i - 1));
        },
        Ctl::To(to, g) => {
            lemma_gone(c, j, e, k, k + 4, l, g);
        },
        _ => {},
    }
    lemma_finish(c, n, m, j, e, y4, p, dst, f, w, l, fits);
}

} // verus!
