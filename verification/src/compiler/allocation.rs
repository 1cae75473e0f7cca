//! Allocation: what the fast way of it does to the machine's memory.
use vstd::prelude::*;
#[allow(unused_imports)]
use crate::compiler::a64::{lemma_mnemonics, Cond, Operand, Reg};
#[allow(unused_imports)]
use crate::compiler::assembler::{spec_imm, spec_mem, spec_x, spec_xr, Code, Insn, Label, LiteralId};
#[allow(unused_imports)]
use crate::compiler::emitter::{dest, Plan, Reload, St};
#[allow(unused_imports)]
use crate::compiler::exits::{lemma_starts_at, starts_with};
#[allow(unused_imports)]
use crate::compiler::ir::{BlockId, Ir, PoolLit, VReg};
#[allow(unused_imports)]
use crate::compiler::machine::{
    added, difference, is_signed, lemma_gone, lemma_next, lemma_resume, lemma_word, run, signed, word, written, Cpu, Ctl,
};
#[allow(unused_imports)]
use crate::compiler::operands::{
    grows, kept, lemma_commit, lemma_grows_commit, lemma_grows_itself, lemma_length, lodged, ready, scratch, settled, slot_at,
    targets,
};
#[allow(unused_imports)]
use crate::compiler::objects::stored_as;
#[allow(unused_imports)]
use crate::compiler::outcomes::{lemma_address, lit_word};
#[allow(unused_imports)]
use crate::compiler::regalloc::{Assignment, SpillSlot};

verus! {

/// Whether a state has only more instructions than another.
pub open spec fn goes_on(a: St, b: St) -> bool {
    &&& starts_with(a.code, b.code)
    &&& b.code.labels == a.code.labels
    &&& b.shadow == a.shadow
    &&& b.of_reg == a.of_reg
}

proof fn lemma_goes_on(a: St, b: St, c: St)
    requires
        goes_on(a, b),
        goes_on(b, c),
    ensures
        goes_on(a, c),
{
    reveal(starts_with);
    assert forall|k: int| 0 <= k < a.code.insns.len() implies #[trigger] c.code.insns[k] == a.code.insns[k] by {
        assert(b.code.insns[k] == a.code.insns[k]);
    }
}

proof fn lemma_stores_go_on(s: St, p: Plan, k: int)
    ensures
        goes_on(s, s.s2_stores_upto(p, k)),
    decreases k,
{
    reveal(starts_with);
    if k > 0 {
        lemma_stores_go_on(s, p, k - 1);
        let a = s.s2_stores_upto(p, k - 1);
        let r = p.s2_stores@[k - 1];
        assert(goes_on(a, a.spill_access("str"@, spec_x(r.reg), r.slot)));
        lemma_goes_on(s, a, s.s2_stores_upto(p, k));
    }
}

proof fn lemma_reload_goes_on(s: St, p: Plan, r: Reload)
    ensures
        goes_on(s, s.reload_one(p, r)),
{
    reveal(starts_with);
}

proof fn lemma_reloads_go_on(s: St, p: Plan, pos: u32, skip: Option<VReg>, k: int)
    ensures
        goes_on(s, s.reloads_upto(p, pos, skip, k)),
    decreases k,
{
    if k > 0 {
        lemma_reloads_go_on(s, p, pos, skip, k - 1);
        let a = s.reloads_upto(p, pos, skip, k - 1);
        lemma_reload_goes_on(a, p, p.reloads@[k - 1]);
        lemma_goes_on(s, a, a.reload_one(p, p.reloads@[k - 1]));
    } else {
        reveal(starts_with);
    }
}

/// The memory after the first `k` body words of an object are set.
pub open spec fn filled(mem: spec_fn(int) -> u64, base: int, w: u64, k: nat) -> spec_fn(int) -> u64
    decreases k,
{
    if k == 0 {
        mem
    } else {
        written(filled(mem, base, w, (k - 1) as nat), base + 16 + 8 * (k - 1), w)
    }
}

proof fn lemma_fill(c: Code, a: int, e: Cpu, q: St, k: nat, g: Cpu, base: u64, w: u64)
    requires
        0 <= a <= q.code.insns.len(),
        k < 0x1000_0000,
        starts_with(q.fill(k).code, c),
        run(c, a, e, q.code.insns.len() as int) == Ctl::At(g),
        g.x.len() == 32,
        g.x[19] == base,
        g.x[17] == w,
    ensures
        q.fill(k).code.insns.len() == q.code.insns.len() + k,
        goes_on(q, q.fill(k)),
        starts_with(q.code, c),
        run(c, a, e, q.fill(k).code.insns.len() as int) == Ctl::At(Cpu { mem: filled(g.mem, base as int, w, k), ..g }),
    decreases k,
{
    if k > 0 {
        lemma_mnemonics();
        let y = q.fill((k - 1) as nat);
        let off = (8 * (2 + (k - 1))) as i64;
        let i = Insn::Op("str"@, seq![spec_x(17), spec_mem(19, off)]);
        assert(q.fill(k).code == y.code.with(i));
        lemma_starts_at(y.code, i, c);
        lemma_fill(c, a, e, q, (k - 1) as nat, g, base, w);
        let n = y.code.insns.len() as int;
        let h = Cpu { mem: filled(g.mem, base as int, w, (k - 1) as nat), ..g };
        assert(base + off == base + 16 + 8 * (k - 1));
        lemma_next(c, a, e, n);
        assert(goes_on(y, q.fill(k))) by {
            reveal(starts_with);
        }
        lemma_goes_on(q, y, q.fill(k));
    } else {
        assert(goes_on(q, q)) by {
            reveal(starts_with);
        }
    }
}

/// The memory after an object of so many words was allocated at `top`: the allocation pointer moved
/// behind it, its mark and its class in its first two words, nil in all others.
pub open spec fn allocated(m: Cpu, cell: int, top: int, words: int, mark: u64, class: u64, nil: u64) -> spec_fn(int) -> u64 {
    let moved = written(m.mem, cell, (top + 8 * words) as u64);
    filled(written(written(moved, top, mark), top + 8, class), top, nil, (words - 2) as nat)
}

/// The first part of an allocation: the object's words are claimed.
#[verifier::spinoff_prover]
proof fn lemma_bump(c: Code, k: int, m: Cpu, s: St, size: i64, slow: Label) -> (e: Cpu)
    requires
        k == s.code.insns.len(),
        m.x.len() == 32,
        starts_with(s.bump(size, slow).code, c),
        0 < size < 0x1_0000_0000,
        ({
            let top = (m.mem)((m.mem)(m.x[28] + 0) as int);
            top + size <= (m.mem)(m.x[28] + 8)
        }),
    ensures
        ({
            let cell = (m.mem)(m.x[28] + 0) as int;
            let top = (m.mem)(cell);
            &&& s.bump(size, slow).code.insns.len() == k + 8
            &&& goes_on(s, s.bump(size, slow))
            &&& run(c, k, m, k + 8) == Ctl::At(e)
            &&& e.x.len() == 32
            &&& e.x[19] == top
            &&& e.mem == written(m.mem, cell, (top + size) as u64)
            &&& forall|r: int| 0 <= r < 32 && r != 17 && r != 19 && r != 20 ==> #[trigger] e.x[r] == m.x[r]
        }),
{
    lemma_mnemonics();
    let z = s.bump(size, slow).code;
    assert(z.insns.len() == k + 8);
    assert(z.insns[k] == Insn::Op("ldr"@, seq![spec_x(20), spec_mem(28, 0)]));
    assert(z.insns[k + 1] == Insn::Op("ldr"@, seq![spec_x(19), spec_mem(20, 0)]));
    assert(z.insns[k + 2] == Insn::Op("add"@, seq![spec_x(17), spec_x(19), spec_imm(size)]));
    assert(z.insns[k + 3] == Insn::Op("ldr"@, seq![spec_x(19), spec_mem(28, 8)]));
    assert(z.insns[k + 4] == Insn::Op("cmp"@, seq![spec_x(17), spec_x(19)]));
    assert(z.insns[k + 5] == Insn::BCond(Cond::Hi, slow));
    assert(z.insns[k + 6] == Insn::Op("str"@, seq![spec_x(17), spec_mem(20, 0)]));
    assert(z.insns[k + 7] == Insn::Op("sub"@, seq![spec_x(19), spec_x(17), spec_imm(size)]));
    assert(forall|i: int| 0 <= i < 8 ==> #[trigger] c.insns[k + i] == z.insns[k + i]) by {
        reveal(starts_with);
    }
    assert(c.insns[k + 0] == z.insns[k + 0]);
    assert(goes_on(s, s.bump(size, slow))) by {
        reveal(starts_with);
    }
    let cell = (m.mem)(m.x[28] + 0);
    let top = (m.mem)(cell as int);
    let limit = (m.mem)(m.x[28] + 8);
    let m1 = Cpu { x: m.x.update(20, cell), ..m };
    lemma_next(c, k, m, k);
    assert(run(c, k, m, k + 1) == Ctl::At(m1));
    let m2 = Cpu { x: m1.x.update(19, top), ..m1 };
    lemma_next(c, k, m, k + 1);
    assert(run(c, k, m, k + 2) == Ctl::At(m2));
    lemma_address(top, size as int);
    let behind_it = (top + size) as u64;
    let m3 = Cpu { x: m2.x.update(17, behind_it), ..m2 };
    lemma_next(c, k, m, k + 2);
    assert(run(c, k, m, k + 3) == Ctl::At(m3));
    let m4 = Cpu { x: m3.x.update(19, limit), ..m3 };
    lemma_next(c, k, m, k + 3);
    assert(run(c, k, m, k + 4) == Ctl::At(m4));
    let m5 = Cpu { f: difference(behind_it, limit), ..m4 };
    lemma_next(c, k, m, k + 4);
    assert(run(c, k, m, k + 5) == Ctl::At(m5));
    lemma_next(c, k, m, k + 5);
    assert(run(c, k, m, k + 6) == Ctl::At(m5));
    let m6 = Cpu { mem: written(m.mem, cell as int, behind_it), ..m5 };
    lemma_next(c, k, m, k + 6);
    assert(run(c, k, m, k + 7) == Ctl::At(m6));
    lemma_address(behind_it, -(size as int));
    let m7 = Cpu { x: m6.x.update(19, top), ..m6 };
    lemma_next(c, k, m, k + 7);
    assert(run(c, k, m, k + 8) == Ctl::At(m7));
    m7
}

/// The second part: its header.
#[verifier::spinoff_prover]
proof fn lemma_header(c: Code, a: int, e: Cpu, s: St, mark: LiteralId, klass: LiteralId, g: Cpu) -> (h: Cpu)
    requires
        0 <= a <= s.code.insns.len(),
        starts_with(s.header(mark, klass).code, c),
        run(c, a, e, s.code.insns.len() as int) == Ctl::At(g),
        g.x.len() == 32,
    ensures
        ({
            let base = g.x[19] as int;
            &&& s.header(mark, klass).code.insns.len() == s.code.insns.len() + 4
            &&& goes_on(s, s.header(mark, klass))
            &&& starts_with(s.code, c)
            &&& run(c, a, e, s.code.insns.len() + 4int) == Ctl::At(h)
            &&& h.x.len() == 32
            &&& h.mem == written(written(g.mem, base, c.pool[mark.0 as int].0), base + 8, c.pool[klass.0 as int].0)
            &&& forall|r: int| 0 <= r < 32 && r != 17 ==> #[trigger] h.x[r] == g.x[r]
        }),
{
    lemma_mnemonics();
    let k = s.code.insns.len() as int;
    let i1 = Insn::LdrLit(spec_xr(17), mark);
    let i2 = Insn::Op("str"@, seq![spec_x(17), spec_mem(19, 0)]);
    let i3 = Insn::LdrLit(spec_xr(17), klass);
    let i4 = Insn::Op("str"@, seq![spec_x(17), spec_mem(19, 8)]);
    let y1 = s.code.with(i1);
    let y2 = y1.with(i2);
    let y3 = y2.with(i3);
    assert(s.header(mark, klass).code == y3.with(i4));
    lemma_starts_at(y3, i4, c);
    lemma_starts_at(y2, i3, c);
    lemma_starts_at(y1, i2, c);
    lemma_starts_at(s.code, i1, c);
    assert(goes_on(s, s.header(mark, klass))) by {
        reveal(starts_with);
    }
    let base = g.x[19] as int;
    let wm = c.pool[mark.0 as int].0;
    let wk = c.pool[klass.0 as int].0;
    let g1 = Cpu { x: g.x.update(17, wm), ..g };
    lemma_next(c, a, e, k);
    assert(run(c, a, e, k + 1) == Ctl::At(g1));
    let g2 = Cpu { mem: written(g.mem, base, wm), ..g1 };
    lemma_next(c, a, e, k + 1);
    assert(run(c, a, e, k + 2) == Ctl::At(g2));
    let g3 = Cpu { x: g2.x.update(17, wk), ..g2 };
    lemma_next(c, a, e, k + 2);
    assert(run(c, a, e, k + 3) == Ctl::At(g3));
    let g4 = Cpu { mem: written(g2.mem, base + 8, wk), ..g3 };
    lemma_next(c, a, e, k + 3);
    assert(run(c, a, e, k + 4) == Ctl::At(g4));
    g4
}

/// Where there is room, an object is allocated at the allocation pointer, which moves behind it: its mark
/// and its class are written, its other words are nil, and its tagged address is left where the
/// destination is kept. No more memory changes but the destination's slot.
#[verifier::spinoff_prover]
#[verifier::rlimit(80)]
pub proof fn law_allocation(
    s: St,
    p: Plan,
    dst: VReg,
    klass: PoolLit,
    size_words: u32,
    following: Option<BlockId>,
    m: Cpu,
)
    requires
        ready(p, s, m),
        lodged(p, dst),
        s.code.labels.len() < u32::MAX - 8,
        2 <= size_words < 0x100_0000,
        !p.r1a_free@.contains(28),
        ({
            let top = (m.mem)((m.mem)(m.x[28] + 0) as int);
            top + 8 * size_words <= (m.mem)(m.x[28] + 8)
        }),
    ensures
        ({
            let cell = (m.mem)(m.x[28] + 0) as int;
            let top = (m.mem)(cell);
            match added(s, s.emit_op(p, Ir::Alloc { dst, klass, size_words }, following), m) {
                Ctl::At(n) => settled(p, n, dst, (top + 1) as u64) && stored_as(
                    p,
                    m,
                    n,
                    dst,
                    allocated(
                        m,
                        cell,
                        top as int,
                        size_words as int,
                        lit_word(p, s, p.mark_slots_lit),
                        lit_word(p, s, klass),
                        lit_word(p, s, p.nil_lit),
                    ),
                ),
                _ => false,
            }
        }),
{
    reveal(St::emit_op);
    lemma_mnemonics();
    let size = (size_words * 8) as i64;
    let words = (size_words - 2) as nat;
    let f = dest(p, dst).num;
    assert(dest(p, dst) == spec_xr(f));
    let k = s.code.insns.len() as int;
    let slow = s.code.next_label();
    let s0 = s.lab().lab();
    let done = s.lab().code.next_label();
    let (mark, kl, nil) = (p.lit(p.mark_slots_lit), p.lit(klass), p.lit(p.nil_lit));
    let q1 = s0.bump(size, slow);
    let q2 = q1.header(mark, kl);
    let q3 = q2.nil_fill(nil, words);
    let add = Insn::Op("add"@, seq![spec_x(f), spec_x(19), spec_imm(1)]);
    let q4 = q3.i3("add"@, spec_x(f), spec_x(19), spec_imm(1));
    let q5 = q4.b(done);
    let q6 = q5.bind(slow);
    let r1 = q6.ldl(spec_xr(0), kl).mov64(spec_xr(1), size as u64);
    let r2 = r1.s2_stores(p);
    let r3 = r2.far(p.stubs.alloc_slow).safepoint();
    let r4 = r3.reloads_at(p, r3.pos, None);
    let r5 = if f != 0 {
        r4.i2("mov"@, spec_x(f), spec_x(0))
    } else {
        r4
    };
    let z = r5.bind(done);
    let t = s.emit_op(p, Ir::Alloc { dst, klass, size_words }, following);
    assert(t == z.commit(p, dst, spec_xr(f)));
    let c = t.code;
    // how the code goes on
    lemma_stores_go_on(r1, p, p.s2_stores@.len() as int);
    lemma_reloads_go_on(r3, p, r3.pos, None, p.reloads@.len() as int);
    assert(goes_on(q6, r1) && goes_on(r2, r3) && goes_on(r4, r5)) by {
        reveal(starts_with);
    }
    lemma_goes_on(q6, r1, r2);
    lemma_goes_on(q6, r2, r3);
    lemma_goes_on(q6, r3, r4);
    lemma_goes_on(q6, r4, r5);
    lemma_grows_commit(z, p, dst, f);
    assert(starts_with(q5.code, c)) by {
        reveal(starts_with);
        reveal(grows);
        assert forall|i: int| 0 <= i < q5.code.insns.len() implies #[trigger] c.insns[i] == q5.code.insns[i] by {
            assert(z.code.insns[i] == r5.code.insns[i]);
            assert(r5.code.insns[i] == q6.code.insns[i]);
        }
    }
    lemma_starts_at(q4.code, Insn::B(done), c);
    lemma_starts_at(q3.code, add, c);
    let d0 = r5.code.insns.len() as int;
    // the machine
    let cell = (m.mem)(m.x[28] + 0) as int;
    let top = (m.mem)(cell);
    let q2f = if words > 0 {
        q2.ldl(spec_xr(17), nil)
    } else {
        q2
    };
    assert(q3 == q2f.fill(words)) by {
        if words == 0 {
            assert(q2f.fill(0) == q2f);
        }
    }
    lemma_fill_starts(q2f, words, c);
    if words > 0 {
        lemma_starts_at(q2.code, Insn::LdrLit(spec_xr(17), nil), c);
    }
    lemma_header_starts(q1, mark, kl, c);
    let e1 = lemma_bump(c, k, m, s0, size, slow);
    let k1 = k + 8;
    let e2 = lemma_header(c, k, m, q1, mark, kl, e1);
    let k2 = k1 + 4;
    let wn = c.pool[nil.0 as int].0;
    let e3 = if words > 0 {
        Cpu { x: e2.x.update(17, wn), ..e2 }
    } else {
        e2
    };
    if words > 0 {
        lemma_next(c, k, m, k2);
    }
    assert(run(c, k, m, q2f.code.insns.len() as int) == Ctl::At(e3));
    lemma_fill(c, k, m, q2f, words, e3, top, e3.x[17]);
    let e4 = Cpu { mem: filled(e3.mem, top as int, e3.x[17], words), ..e3 };
    let k4 = q3.code.insns.len() as int;
    assert(run(c, k, m, k4) == Ctl::At(e4));
    assert(words > 0 || e4.mem == e3.mem);
    lemma_address(top, 1);
    lemma_word(1);
    let w = (top + 1) as u64;
    let e5 = Cpu { x: e4.x.update(f as int, w), ..e4 };
    lemma_next(c, k, m, k4);
    assert(run(c, k, m, k4 + 1) == Ctl::At(e5));
    lemma_next(c, k, m, k4 + 1);
    // past the slow way
    assert(q5.code.labels == s0.code.labels);
    assert(slow.0 != done.0);
    assert(z.code.labels[done.0 as int] == Some(d0 as nat));
    assert(c.labels[done.0 as int] == Some(d0 as nat) && done.0 < c.labels.len()) by {
        reveal(grows);
    }
    assert(k4 + 2 <= d0) by {
        reveal(starts_with);
    }
    lemma_length(z.code, c);
    lemma_past(c, k, m, k4 + 1, d0, done, e5);
    // the destination
    let r29: u8 = 29;
    assert(e5.x[r29 as int] == m.x[r29 as int]);
    assert(ready(p, z, e5));
    assert(targets(p, dst, f));
    lemma_grows_itself(c);
    let n = lemma_commit(c, z, p, dst, f, e5);
    lemma_resume(c, k, m, d0, e5, c.insns.len() as int);
    assert(c.pool == s.code.pool) by {
        reveal(starts_with);
        reveal(grows);
    }
    assert(e5.mem == allocated(
        m,
        cell,
        top as int,
        size_words as int,
        lit_word(p, s, p.mark_slots_lit),
        lit_word(p, s, klass),
        lit_word(p, s, p.nil_lit),
    ));
    assert forall|r: u8|
        r < 32 && !scratch(r) && !p.r1a_free@.contains(r) && p.resident@[dst.0 as int] != Some(r) && p.home(dst)
            != Assignment::Reg(r) implies #[trigger] n.x[r as int] == m.x[r as int] by {
        assert(n.x[r as int] == e5.x[r as int]);
    }
}

/// Control on its way to a label that stands further on arrives there.
proof fn lemma_past(c: Code, a: int, m: Cpu, j: int, d: int, l: Label, g: Cpu)
    requires
        0 <= a <= j < d,
        run(c, a, m, j) == Ctl::At(g),
        c.insns[j] == Insn::B(l),
        l.0 < c.labels.len(),
        c.labels[l.0 as int] == Some(d as nat),
    ensures
        run(c, a, m, d) == Ctl::At(g),
{
    lemma_next(c, a, m, j);
    if j + 1 < d {
        assert(run(c, a, m, j + 1) == Ctl::To(l, g));
        lemma_gone(c, a, m, j + 1, d - 1, l, g);
        lemma_next(c, a, m, d - 1);
    }
}

proof fn lemma_fill_starts(q: St, k: nat, c: Code)
    requires
        starts_with(q.fill(k).code, c),
    ensures
        starts_with(q.code, c),
    decreases k,
{
    if k > 0 {
        let y = q.fill((k - 1) as nat);
        let off = (8 * (2 + (k - 1))) as i64;
        let i = Insn::Op("str"@, seq![spec_x(17), spec_mem(19, off)]);
        assert(q.fill(k).code == y.code.with(i));
        lemma_starts_at(y.code, i, c);
        lemma_fill_starts(q, (k - 1) as nat, c);
    }
}

proof fn lemma_header_starts(s: St, mark: LiteralId, klass: LiteralId, c: Code)
    requires
        starts_with(s.header(mark, klass).code, c),
    ensures
        starts_with(s.code, c),
{
    let i1 = Insn::LdrLit(spec_xr(17), mark);
    let i2 = Insn::Op("str"@, seq![spec_x(17), spec_mem(19, 0)]);
    let i3 = Insn::LdrLit(spec_xr(17), klass);
    let i4 = Insn::Op("str"@, seq![spec_x(17), spec_mem(19, 8)]);
    let y1 = s.code.with(i1);
    let y2 = y1.with(i2);
    let y3 = y2.with(i3);
    assert(s.header(mark, klass).code == y3.with(i4));
    lemma_starts_at(y3, i4, c);
    lemma_starts_at(y2, i3, c);
    lemma_starts_at(y1, i2, c);
    lemma_starts_at(s.code, i1, c);
}

} // verus!
