//! Negation, membership guards, and the ways out of a method.
use vstd::prelude::*;
#[allow(unused_imports)]
use crate::compiler::a64::{lemma_mnemonics, Cond, Operand, Reg};
#[allow(unused_imports)]
use crate::compiler::assembler::{spec_imm, spec_mem, spec_x, spec_xr, Code, Insn, Label, RelocKind};
#[allow(unused_imports)]
use crate::compiler::emitter::{dest, Plan, St};
#[allow(unused_imports)]
use crate::compiler::ir::{safepoint_op, BailoutReason, BlockId, Ir, PoolLit, VReg};
#[allow(unused_imports)]
use crate::compiler::lower::{cond_holds, Flags};
#[allow(unused_imports)]
use crate::compiler::machine::{
    added, behind, difference, lemma_gone, lemma_next, lemma_resume, lemma_word, run, same_but, signed, tested, word, Cpu,
    Ctl,
};
#[allow(unused_imports)]
use crate::compiler::operands::{
    grows, kept, lemma_at, lemma_finish, lemma_grows, lemma_grows_commit, lemma_grows_itself, lemma_grows_resolve,
    lemma_length, lodged, quiet, ready, scratch, settled,
};
#[allow(unused_imports)]
use crate::compiler::outcomes::{lemma_guard_label, lemma_sole, lit_word, two_held};
#[allow(unused_imports)]
use crate::compiler::regalloc::{Assignment, SpillSlot};

verus! {

// ── Instructions that stay ──────────────────────────────────────────────

/// Whether code `b` starts with the instructions of code `a`, and has its constants.
#[verifier::opaque]
pub open spec fn starts_with(a: Code, b: Code) -> bool {
    &&& a.insns.len() <= b.insns.len()
    &&& forall|k: int| 0 <= k < a.insns.len() ==> #[trigger] b.insns[k] == a.insns[k]
    &&& b.pool == a.pool
}

pub(crate) proof fn lemma_starts_at(a: Code, i: Insn, c: Code)
    requires
        starts_with(a.with(i), c),
    ensures
        starts_with(a, c),
        a.insns.len() < c.insns.len(),
        c.insns[a.insns.len() as int] == i,
        c.pool == a.pool,
{
    reveal(starts_with);
    let b = a.with(i);
    assert(b.insns[a.insns.len() as int] == i);
    assert forall|k: int| 0 <= k < a.insns.len() implies #[trigger] c.insns[k] == a.insns[k] by {
        assert(b.insns[k] == a.insns[k]);
    }
}

// ── Membership ──────────────────────────────────────────────────────────

/// Whether a class word is among the first `k` constants.
pub open spec fn among(p: Plan, pool: Seq<(u64, Option<RelocKind>)>, expects: Seq<PoolLit>, k: int, w: u64) -> bool {
    exists|i: int| 0 <= i < k && pool[p.lit(#[trigger] expects[i]).0 as int].0 == w
}

proof fn lemma_tests(
    c: Code,
    a: int,
    e: Cpu,
    y: St,
    p: Plan,
    expects: Seq<PoolLit>,
    ok: Label,
    cold: Label,
    k: int,
    g: Cpu,
    found: u64,
)
    requires
        0 <= a <= y.code.insns.len(),
        0 <= k <= expects.len(),
        expects.len() >= 1,
        starts_with(y.klass_tests(p, expects, ok, cold, k).code, c),
        ok.0 < c.labels.len(),
        c.labels[ok.0 as int] == Some((y.code.insns.len() + 3 * expects.len()) as nat),
        cold.0 < c.labels.len(),
        c.labels[cold.0 as int] matches Some(t) ==> t <= a,
        run(c, a, e, y.code.insns.len() as int) == Ctl::At(g),
        g.x.len() == 32,
        g.x[17] == found,
    ensures
        ({
            let t = y.klass_tests(p, expects, ok, cold, k);
            let last = k == expects.len();
            &&& t.code.insns.len() == y.code.insns.len() + 3 * k
            &&& t.code.labels == y.code.labels
            &&& match run(c, a, e, t.code.insns.len() as int) {
                Ctl::At(h) => same_but(g, h, 16) && (last || h.x[17] == found) && among(p, c.pool, expects, k, found) == last,
                Ctl::To(l, h) => same_but(g, h, 16) && if last {
                    l == cold && !among(p, c.pool, expects, k, found)
                } else {
                    l == ok && among(p, c.pool, expects, k, found)
                },
                _ => false,
            }
        }),
    decreases k,
{
    if k > 0 {
        lemma_mnemonics();
        let y0 = y.klass_tests(p, expects, ok, cold, k - 1);
        let id = p.lit(expects[k - 1]);
        let i1 = Insn::LdrLit(spec_xr(16), id);
        let i2 = Insn::Op("cmp"@, seq![spec_x(17), spec_x(16)]);
        let last = k == expects.len();
        let i3 = if last {
            Insn::BCond(Cond::Ne, cold)
        } else {
            Insn::BCond(Cond::Eq, ok)
        };
        let t = y.klass_tests(p, expects, ok, cold, k);
        let z1 = y0.code.with(i1);
        let z2 = z1.with(i2);
        assert(t.code == z2.with(i3));
        lemma_starts_at(z2, i3, c);
        lemma_starts_at(z1, i2, c);
        lemma_starts_at(y0.code, i1, c);
        lemma_tests(c, a, e, y, p, expects, ok, cold, k - 1, g, found);
        let n = y0.code.insns.len() as int;
        let w = c.pool[id.0 as int].0;
        assert(among(p, c.pool, expects, k, found) <==> among(p, c.pool, expects, k - 1, found) || w == found) by {
            if w == found {
                assert(c.pool[p.lit(expects[k - 1]).0 as int].0 == found);
            }
        }
        match run(c, a, e, n) {
            Ctl::At(h) => {
                let h1 = Cpu { x: h.x.update(16, w), ..h };
                lemma_next(c, a, e, n);
                assert(run(c, a, e, n + 1) == Ctl::At(h1));
                let h2 = Cpu { f: difference(found, w), ..h1 };
                lemma_next(c, a, e, n + 1);
                assert(run(c, a, e, n + 2) == Ctl::At(h2));
                lemma_next(c, a, e, n + 2);
                assert(same_but(g, h2, 16));
                assert(run(c, a, e, n + 3) == if (found == w) == last {
                    Ctl::At(h2)
                } else if last {
                    Ctl::To(cold, h2)
                } else {
                    Ctl::To(ok, h2)
                });
            },
            Ctl::To(l, h) => {
                lemma_gone(c, a, e, n, n + 2, l, h);
                lemma_next(c, a, e, n + 2);
                assert(run(c, a, e, n + 3) == if last {
                    Ctl::At(h)
                } else {
                    Ctl::To(ok, h)
                });
            },
            _ => {},
        }
    }
}

/// A guard on several classes lets exactly the heap objects pass whose class word is one of those
/// expected, and sends the rest to its failure block.
#[verifier::spinoff_prover]
pub proof fn law_membership_guards(
    s: St,
    p: Plan,
    obj: VReg,
    expects: Vec<PoolLit>,
    fail: BlockId,
    following: Option<BlockId>,
    m: Cpu,
    w: u64,
)
    requires
        two_held(p, s, m, obj, w, obj, w),
        behind(s, p.labels@[fail.0 as int]),
        expects@.len() >= 1,
    ensures
        ({
            let passes = w & 3 != 0 && exists|i: int|
                0 <= i < expects@.len() && lit_word(p, s, #[trigger] expects@[i]) == (m.mem)(w - 1 + 8);
            match added(s, s.emit_op(p, Ir::GuardKlassIn { obj, expects, fail }, following), m) {
                Ctl::At(n) => passes && quiet(p, m, n),
                Ctl::To(l, n) => !passes && l == p.labels@[fail.0 as int] && quiet(p, m, n),
                _ => false,
            }
        }),
{
    reveal(St::emit_op);
    lemma_mnemonics();
    lemma_word(3);
    let op = Ir::GuardKlassIn { obj, expects, fail };
    let t = s.emit_op(p, op, following);
    let c = t.code;
    let n = s.code.insns.len() as int;
    let cold = p.labels@[fail.0 as int];
    let (ro, s1) = s.resolve(p, obj, 16);
    let j = s1.code.insns.len() as int;
    let tst = Insn::Op("tst"@, seq![Operand::Reg(ro), spec_imm(3)]);
    let ld = Insn::Op("ldur"@, seq![spec_x(17), spec_mem(ro.num, 7)]);
    let u = s1.i2("tst"@, Operand::Reg(ro), spec_imm(3)).bc(Cond::Eq, cold).i2("ldur"@, spec_x(17), spec_mem(ro.num, 7));
    let ok = u.code.next_label();
    let y = u.lab();
    let z = y.klass_tests(p, expects@, ok, cold, expects@.len() as int);
    assert(t == z.bind(ok));
    lemma_grows_resolve(s, p, obj, 16);
    lemma_tests_code(y, p, expects@, ok, cold, expects@.len() as int);
    assert(starts_with(z.code, c)) by {
        reveal(starts_with);
    }
    assert(c.insns[j] == tst && c.insns[j + 1] == Insn::BCond(Cond::Eq, cold) && c.insns[j + 2] == ld && grows(s1.code, c)) by {
        reveal(grows);
        assert(u.code.insns[j] == tst);
        assert(u.code.insns[j + 1] == Insn::BCond(Cond::Eq, cold));
        assert(u.code.insns[j + 2] == ld);
        assert(z.code.insns[j] == y.code.insns[j]);
        assert(z.code.insns[j + 1] == y.code.insns[j + 1]);
        assert(z.code.insns[j + 2] == y.code.insns[j + 2]);
        assert forall|k: int| 0 <= k < s1.code.insns.len() implies #[trigger] c.insns[k] == s1.code.insns[k] by {
            assert(z.code.insns[k] == y.code.insns[k]);
            assert(u.code.insns[k] == s1.code.insns[k]);
        }
        assert(u.code.labels == s1.code.labels);
    }
    let e = lemma_sole(c, s, p, obj, w, 16, m);
    lemma_guard_label(s, s1, c, cold);
    let end = c.insns.len() as int;
    lemma_resume(c, n, m, j, e, end);
    let g = Cpu { f: tested(w, 3), ..e };
    lemma_next(c, j, e, j);
    assert(run(c, j, e, j + 1) == Ctl::At(g));
    lemma_next(c, j, e, j + 1);
    let found = (m.mem)(w - 1 + 8);
    assert(w - 1 + 8 == w + 7);
    assert(c.pool == s.code.pool);
    assert(c.labels[ok.0 as int] == Some((y.code.insns.len() + 3 * expects@.len()) as nat));
    if w & 3 == 0 {
        assert(run(c, j, e, j + 2) == Ctl::To(cold, g));
        lemma_gone(c, j, e, j + 2, end, cold, g);
    } else {
        let g1 = Cpu { x: g.x.update(17, found), ..g };
        lemma_next(c, j, e, j + 2);
        assert(run(c, j, e, j + 3) == Ctl::At(g1));
        lemma_tests(c, j, e, y, p, expects@, ok, cold, expects@.len() as int, g1, found);
        assert(among(p, c.pool, expects@, expects@.len() as int, found) <==> exists|i: int|
            0 <= i < expects@.len() && lit_word(p, s, #[trigger] expects@[i]) == found);
    }
}

proof fn lemma_tests_code(y: St, p: Plan, expects: Seq<PoolLit>, ok: Label, cold: Label, k: int)
    requires
        0 <= k <= expects.len(),
    ensures
        ({
            let t = y.klass_tests(p, expects, ok, cold, k);
            &&& t.code.insns.len() == y.code.insns.len() + 3 * k
            &&& t.code.labels == y.code.labels
            &&& t.code.pool == y.code.pool
            &&& t == (St { code: t.code, ..y })
            &&& forall|i: int| 0 <= i < y.code.insns.len() ==> #[trigger] t.code.insns[i] == y.code.insns[i]
        }),
    decreases k,
{
    if k > 0 {
        lemma_tests_code(y, p, expects, ok, cold, k - 1);
        let t = y.klass_tests(p, expects, ok, cold, k);
        let t0 = y.klass_tests(p, expects, ok, cold, k - 1);
        assert forall|i: int| 0 <= i < y.code.insns.len() implies #[trigger] t.code.insns[i] == y.code.insns[i] by {
            assert(t0.code.insns[i] == y.code.insns[i]);
        }
    }
}

// ── Negation ────────────────────────────────────────────────────────────

/// The code of a negation, up to where its result is in a register.
pub open spec fn not_core(s: St, p: Plan, rv: u8, f: u8, cold: Label) -> St {
    let s1 = s.ldl(spec_xr(17), p.lit(p.true_lit)).i2("cmp"@, spec_x(rv), spec_x(17));
    let not_true = s1.code.next_label();
    let s2 = s1.lab();
    let done = s2.code.next_label();
    s2.lab().bc(Cond::Ne, not_true).ldl(spec_xr(f), p.lit(p.false_lit)).b(done).bind(not_true).ldl(
        spec_xr(17),
        p.lit(p.false_lit),
    ).i2("cmp"@, spec_x(rv), spec_x(17)).bc(Cond::Ne, cold).ldl(spec_xr(f), p.lit(p.true_lit)).bind(done)
}

/// The instructions of a negation, from instruction `k` on.
pub open spec fn is_not(c: Code, k: int, p: Plan, rv: u8, f: u8, cold: Label, not_true: Label, done: Label) -> bool {
    &&& c.insns[k] == Insn::LdrLit(spec_xr(17), p.lit(p.true_lit))
    &&& c.insns[k + 1] == Insn::Op("cmp"@, seq![spec_x(rv), spec_x(17)])
    &&& c.insns[k + 2] == Insn::BCond(Cond::Ne, not_true)
    &&& c.insns[k + 3] == Insn::LdrLit(spec_xr(f), p.lit(p.false_lit))
    &&& c.insns[k + 4] == Insn::B(done)
    &&& c.insns[k + 5] == Insn::LdrLit(spec_xr(17), p.lit(p.false_lit))
    &&& c.insns[k + 6] == Insn::Op("cmp"@, seq![spec_x(rv), spec_x(17)])
    &&& c.insns[k + 7] == Insn::BCond(Cond::Ne, cold)
    &&& c.insns[k + 8] == Insn::LdrLit(spec_xr(f), p.lit(p.true_lit))
    &&& not_true.0 < c.labels.len()
    &&& c.labels[not_true.0 as int] == Some((k + 5) as nat)
    &&& done.0 < c.labels.len()
    &&& c.labels[done.0 as int] == Some((k + 9) as nat)
}

#[verifier::spinoff_prover]
proof fn lemma_not_core(s: St, p: Plan, rv: u8, f: u8, cold: Label)
    requires
        s.code.labels.len() < u32::MAX - 4,
    ensures
        ({
            let z = not_core(s, p, rv, f, cold);
            let k = s.code.insns.len() as int;
            &&& grows(s.code, z.code)
            &&& z.code.insns.len() == k + 9
            &&& is_not(z.code, k, p, rv, f, cold, s.code.next_label(), Label((s.code.labels.len() + 1) as u32))
            &&& z == (St { code: z.code, ..s })
        }),
{
    reveal(grows);
}

proof fn lemma_not_grown(z: Code, c: Code, k: int, p: Plan, rv: u8, f: u8, cold: Label, not_true: Label, done: Label)
    requires
        is_not(z, k, p, rv, f, cold, not_true, done),
        0 <= k,
        z.insns.len() == k + 9,
        grows(z, c),
    ensures
        is_not(c, k, p, rv, f, cold, not_true, done),
{
    reveal(grows);
    assert(c.insns[k + 0] == z.insns[k + 0]);
}

/// The negation of a boolean is left where the destination is kept: false for true, true for false. Any
/// other value goes to the failure block.
#[verifier::spinoff_prover]
pub proof fn law_negation(s: St, p: Plan, dst: VReg, src: VReg, fail: BlockId, following: Option<BlockId>, m: Cpu, w: u64)
    requires
        two_held(p, s, m, src, w, src, w),
        lodged(p, dst),
        behind(s, p.labels@[fail.0 as int]),
    ensures
        match added(s, s.emit_op(p, Ir::BoolNot { dst, src, fail }, following), m) {
            Ctl::At(n) => kept(p, m, n, dst) && if w == lit_word(p, s, p.true_lit) {
                settled(p, n, dst, lit_word(p, s, p.false_lit))
            } else {
                w == lit_word(p, s, p.false_lit) && settled(p, n, dst, lit_word(p, s, p.true_lit))
            },
            Ctl::To(l, n) => w != lit_word(p, s, p.true_lit) && w != lit_word(p, s, p.false_lit) && l
                == p.labels@[fail.0 as int] && kept(p, m, n, dst),
            _ => false,
        },
{
    reveal(St::emit_op);
    lemma_mnemonics();
    let t = s.emit_op(p, Ir::BoolNot { dst, src, fail }, following);
    let c = t.code;
    let n = s.code.insns.len() as int;
    let cold = p.labels@[fail.0 as int];
    let (rv, s1) = s.resolve(p, src, 16);
    assert(rv == spec_xr(rv.num));
    let k = s1.code.insns.len() as int;
    let f = dest(p, dst).num;
    assert(dest(p, dst) == spec_xr(f));
    let z = not_core(s1, p, rv.num, f, cold);
    assert(t == z.commit(p, dst, spec_xr(f)));
    lemma_grows_resolve(s, p, src, 16);
    lemma_not_core(s1, p, rv.num, f, cold);
    lemma_grows_commit(z, p, dst, f);
    lemma_grows_itself(c);
    lemma_grows(s1.code, z.code, c);
    let not_true = s1.code.next_label();
    let done = Label((s1.code.labels.len() + 1) as u32);
    lemma_not_grown(z.code, c, k, p, rv.num, f, cold, not_true, done);
    let e = lemma_sole(c, s, p, src, w, 16, m);
    lemma_guard_label(s, s1, c, cold);
    lemma_length(s1.code, c);
    let wt = lit_word(p, s, p.true_lit);
    let wf = lit_word(p, s, p.false_lit);
    let e1 = Cpu { x: e.x.update(17, wt), ..e };
    lemma_next(c, k, e, k);
    assert(run(c, k, e, k + 1) == Ctl::At(e1));
    let e2 = Cpu { f: difference(w, wt), ..e1 };
    lemma_next(c, k, e, k + 1);
    assert(run(c, k, e, k + 2) == Ctl::At(e2));
    lemma_next(c, k, e, k + 2);
    let answer = if w == wt {
        wf
    } else {
        wt
    };
    if w == wt {
        let e3 = Cpu { x: e2.x.update(f as int, wf), ..e2 };
        lemma_next(c, k, e, k + 3);
        assert(run(c, k, e, k + 4) == Ctl::At(e3));
        lemma_next(c, k, e, k + 4);
        assert(run(c, k, e, k + 5) == Ctl::To(done, e3));
        lemma_gone(c, k, e, k + 5, k + 8, done, e3);
        lemma_next(c, k, e, k + 8);
        assert(run(c, k, e, k + 9) == Ctl::At(e3));
    } else {
        assert(run(c, k, e, k + 3) == Ctl::To(not_true, e2));
        lemma_gone(c, k, e, k + 3, k + 4, not_true, e2);
        lemma_next(c, k, e, k + 4);
        assert(run(c, k, e, k + 5) == Ctl::At(e2));
        let e3 = Cpu { x: e2.x.update(17, wf), ..e2 };
        lemma_next(c, k, e, k + 5);
        assert(run(c, k, e, k + 6) == Ctl::At(e3));
        let e4 = Cpu { f: difference(w, wf), ..e3 };
        lemma_next(c, k, e, k + 6);
        assert(run(c, k, e, k + 7) == Ctl::At(e4));
        lemma_next(c, k, e, k + 7);
        if w == wf {
            assert(run(c, k, e, k + 8) == Ctl::At(e4));
            let e5 = Cpu { x: e4.x.update(f as int, wt), ..e4 };
            lemma_next(c, k, e, k + 8);
            assert(run(c, k, e, k + 9) == Ctl::At(e5));
        } else {
            assert(run(c, k, e, k + 8) == Ctl::To(cold, e4));
            lemma_gone(c, k, e, k + 8, k + 9, cold, e4);
        }
    }
    lemma_finish(c, n, m, k, e, z, p, dst, f, answer, cold, w == wt || w == wf);
}

// ── Returns ─────────────────────────────────────────────────────────────

/// A value in a register is returned in `x0`, through the epilogue. So is the receiver, the first value.
#[verifier::spinoff_prover]
pub proof fn law_returns(s: St, p: Plan, val: VReg, r: u8, following: Option<BlockId>, m: Cpu)
    requires
        m.x.len() == 32,
        r < 29,
        p.resident@[val.0 as int] == Some(r) || (p.resident@[val.0 as int] is None && p.home(val) == Assignment::Reg(r)),
        behind(s, p.epilogue),
    ensures
        match added(s, s.emit_op(p, Ir::Ret { val }, following), m) {
            Ctl::To(l, n) => l == p.epilogue && n.x[0] == m.x[r as int] && n.mem == m.mem && forall|q: int|
                1 <= q < 32 ==> #[trigger] n.x[q] == m.x[q],
            _ => false,
        },
        val == VReg(0) ==> s.emit_op(p, Ir::RetSelf, following) == s.emit_op(p, Ir::Ret { val }, following),
{
    reveal(St::emit_op);
    lemma_mnemonics();
    let t = s.emit_op(p, Ir::Ret { val }, following);
    let c = t.code;
    let n = s.code.insns.len() as int;
    let i = Insn::Op("mov"@, seq![spec_x(0), spec_x(r)]);
    if r != 0 {
        assert(c == s.code.with(i).with(Insn::B(p.epilogue)));
        assert(c.insns[n] == i);
        assert(c.insns[n + 1] == Insn::B(p.epilogue));
        let m1 = Cpu { x: m.x.update(0, m.x[r as int]), ..m };
        lemma_next(c, n, m, n);
        assert(run(c, n, m, n + 1) == Ctl::At(m1));
        lemma_next(c, n, m, n + 1);
    } else {
        assert(c == s.code.with(Insn::B(p.epilogue)));
        lemma_next(c, n, m, n);
    }
}

/// Giving up answers a word that is neither a small integer nor an object, through the epilogue.
pub proof fn law_bailout(s: St, p: Plan, reason: BailoutReason, following: Option<BlockId>, m: Cpu)
    requires
        m.x.len() == 32,
        behind(s, p.epilogue),
    ensures
        match added(s, s.emit_op(p, Ir::Bailout { reason }, following), m) {
            Ctl::To(l, n) => l == p.epilogue && n.x[0] % 4 == 2 && n.mem == m.mem && forall|q: int|
                1 <= q < 32 ==> #[trigger] n.x[q] == m.x[q],
            _ => false,
        },
{
    reveal(St::emit_op);
    lemma_mnemonics();
    let t = s.emit_op(p, Ir::Bailout { reason }, following);
    let c = t.code;
    let n = s.code.insns.len() as int;
    lemma_next(c, n, m, n);
    lemma_next(c, n, m, n + 1);
}

// ── Results of calls ────────────────────────────────────────────────────

/// What a call answers in `x0` is left where the destination is kept, unless it is the word that says
/// that the stack is being unwound: then the method is left through its epilogue.
#[verifier::spinoff_prover]
pub proof fn law_call_results(s: St, p: Plan, dst: VReg, m: Cpu)
    requires
        ready(p, s, m),
        lodged(p, dst),
        !p.resident_across_calls,
        behind(s, p.epilogue),
    ensures
        match added(s, s.after_call(p, dst), m) {
            Ctl::At(n) => m.x[0] != 6 && settled(p, n, dst, m.x[0]) && kept(p, m, n, dst),
            Ctl::To(l, n) => m.x[0] == 6 && l == p.epilogue && kept(p, m, n, dst),
            _ => false,
        },
{
    lemma_mnemonics();
    lemma_word(6);
    let t = s.after_call(p, dst);
    let c = t.code;
    let n = s.code.insns.len() as int;
    let f = dest(p, dst).num;
    assert(dest(p, dst) == spec_xr(f));
    let w = m.x[0];
    let i1 = Insn::Op("sub"@, seq![spec_x(17), spec_x(0), spec_imm(6)]);
    let i2 = Insn::Cbz(spec_xr(17), p.epilogue);
    let i3 = Insn::Op("mov"@, seq![spec_x(f), spec_x(0)]);
    let y1 = s.i3("sub"@, spec_x(17), spec_x(0), spec_imm(6));
    let y2 = y1.cbz(spec_xr(17), p.epilogue);
    let y = if f != 0 {
        y2.i2("mov"@, spec_x(f), spec_x(0))
    } else {
        y2
    };
    assert(t == y.commit(p, dst, spec_xr(f)));
    lemma_grows_commit(y, p, dst, f);
    lemma_grows_itself(c);
    if f != 0 {
        lemma_at(y2.code, i3, c);
    }
    lemma_at(y1.code, i2, c);
    lemma_at(s.code, i1, c);
    assert(p.epilogue.0 < c.labels.len() && c.labels[p.epilogue.0 as int] == s.code.labels[p.epilogue.0 as int]) by {
        reveal(grows);
    }
    let u = word(signed(w) - 6);
    assert(u == 0 <==> w == 6);
    let m1 = Cpu { x: m.x.update(17, u), ..m };
    lemma_next(c, n, m, n);
    assert(run(c, n, m, n + 1) == Ctl::At(m1));
    lemma_next(c, n, m, n + 1);
    let k = y.code.insns.len() as int;
    if w == 6 {
        assert(run(c, n, m, n + 2) == Ctl::To(p.epilogue, m1));
        lemma_gone(c, n, m, n + 2, k, p.epilogue, m1);
    } else {
        assert(run(c, n, m, n + 2) == Ctl::At(m1));
        if f != 0 {
            lemma_next(c, n, m, n + 2);
            assert(run(c, n, m, n + 3) == Ctl::At(Cpu { x: m1.x.update(f as int, w), ..m1 }));
        }
    }
    lemma_finish(c, n, m, n, m, y, p, dst, f, w, p.epilogue, w != 6);
}

} // verus!
