//! Argument marshalling for sends.
//!
//! The arguments of a send move into `x0`, `x1`, ... at once: a register that one argument is to
//! land in may still hold another. [`moves`] orders the single moves so that nothing is
//! overwritten before it is read, and breaks a cycle through `x16`.
use vstd::prelude::*;
#[allow(unused_imports)]
use crate::compiler::a64::lemma_mnemonics;
use crate::compiler::assembler::{x, xr, Assembler, LiteralId, Reg, RelocKind};
#[allow(unused_imports)]
use crate::compiler::assembler::{lemma_call_sites, lemma_open_plain, Code, Insn, Reloc};
use crate::compiler::emit::EmittedIcSite;
use crate::compiler::emitter::{Emitter, Plan};
#[allow(unused_imports)]
use crate::compiler::emitter::{advanced, closes, keeps_records, next, reached, recorded, spill_off, stepped, tagged, St};
use crate::compiler::ir::{CallSiteInfo, VReg};
use crate::compiler::regalloc::{Assignment, SpillSlot};

verus! {

broadcast use crate::compiler::a64::group_encoding;

/// Where an argument comes from.
#[derive(Clone, Copy, Debug, PartialEq, Eq, Structural)]
pub enum Src {
    Reg(u8),
    Mem(SpillSlot),
    Imm(u64),
    Lit(LiteralId),
}

/// Where an argument comes from: its resident register, a constant, its register or its slot.
pub open spec fn arg_src(p: Plan, v: VReg) -> Src {
    match p.resident@[v.0 as int] {
        Some(rr) => Src::Reg(rr),
        None => match p.const_smi@[v.0 as int] {
            Some(cv) => Src::Imm(tagged(cv)),
            None => match (p.const_pool@[v.0 as int], p.home(v)) {
                (_, Assignment::Reg(r)) => Src::Reg(r),
                (Some(k), Assignment::Spill(_)) => Src::Lit(p.literal_ids@[k as int]),
                (None, Assignment::Spill(slot)) => Src::Mem(slot),
            },
        },
    }
}

/// The moves that are needed, each a destination and a source; what is in place needs none.
pub open spec fn pending_of(p: Plan, args: Seq<VReg>) -> Seq<(u8, Src)>
    decreases args.len(),
{
    if args.len() == 0 {
        Seq::empty()
    } else {
        let prev = pending_of(p, args.drop_last());
        let i = (args.len() - 1) as u8;
        let s = arg_src(p, args.last());
        if s == Src::Reg(i) {
            prev
        } else {
            prev.push((i, s))
        }
    }
}

/// Whether a move still reads a register.
pub open spec fn reads(q: Seq<(u8, Src)>, r: u8) -> bool {
    exists|k: int| 0 <= k < q.len() && (#[trigger] q[k]).1 == Src::Reg(r)
}

/// The first move, from a place on, whose destination no move reads; the end where there is none.
pub open spec fn first_free(q: Seq<(u8, Src)>, from: int) -> int
    decreases q.len() - from,
{
    if from < 0 || from >= q.len() {
        q.len() as int
    } else if !reads(q, q[from].0) {
        from
    } else {
        first_free(q, from + 1)
    }
}

/// The moves with every read of a register turned to `x16`.
pub open spec fn retarget(q: Seq<(u8, Src)>, r: u8) -> Seq<(u8, Src)> {
    Seq::new(
        q.len(),
        |k: int|
            if q[k].1 == Src::Reg(r) {
                (q[k].0, Src::Reg(16))
            } else {
                q[k]
            },
    )
}

/// The order of the moves: a move whose destination nobody reads any more; where there is none,
/// the first destination is saved in `x16` first.
pub open spec fn moves(q: Seq<(u8, Src)>) -> Seq<(u8, Src)>
    decreases q.len(),
{
    if q.len() == 0 {
        Seq::empty()
    } else {
        let k = first_free(q, 0);
        if 0 <= k < q.len() {
            seq![q[k]] + moves(q.remove(k))
        } else {
            seq![(16u8, Src::Reg(q[0].0)), q[0]] + moves(retarget(q.remove(0), q[0].0))
        }
    }
}

impl St {
    /// One move.
    pub open spec fn move_one(self, i: u8, s: Src) -> St {
        match s {
            Src::Reg(r) => self.i2("mov"@, x(i), x(r)),
            Src::Mem(slot) => self.spill_access("ldr"@, x(i), slot),
            Src::Imm(v) => self.mov64(xr(i), v),
            Src::Lit(l) => self.ldl(xr(i), l),
        }
    }

    /// Moves in order.
    pub open spec fn run_moves(self, ms: Seq<(u8, Src)>) -> St
        decreases ms.len(),
    {
        if ms.len() == 0 {
            self
        } else {
            self.move_one(ms[0].0, ms[0].1).run_moves(ms.drop_first())
        }
    }

    /// A send: the arguments in place, the slots current, the patchable call, its records, and
    /// the result in its home.
    pub open spec fn call_send(self, p: Plan, dst: VReg, site: u16, args: Seq<VReg>) -> St {
        let s = self.run_moves(moves(pending_of(p, args))).s2_stores(p);
        let off = s.code.offset();
        let info = p.call_sites@[site as int];
        let s1 = St { code: s.code.with(Insn::Bl(RelocKind::InlineCache)), ..s }.safepoint();
        let s2 = St {
            ic_sites: s1.ic_sites.push(EmittedIcSite { off, site, selector: info.selector, argc: info.argc }),
            ..s1
        };
        s2.after_call(p, dst)
    }
}

proof fn lemma_run_cons(s: St, e: (u8, Src), ms: Seq<(u8, Src)>)
    ensures
        s.run_moves(seq![e] + ms) == s.move_one(e.0, e.1).run_moves(ms),
{
    assert((seq![e] + ms).drop_first() =~= ms);
}

/// What a move can name: a destination below `x16`, a register or a slot of the frame.
pub open spec fn move_ok(p: Plan, pool: nat, e: (u8, Src)) -> bool {
    &&& e.0 < 16
    &&& e.1 matches Src::Lit(l) ==> l.0 < pool
    &&& e.1 matches Src::Reg(r) ==> r < 31
    &&& e.1 matches Src::Mem(slot) ==> slot.0 < p.frame_slots
}

impl<'a, A: Assembler> Emitter<'a, A> {
    fn source_of(&self, v: VReg) -> (s: Src)
        requires
            self.ok(),
            self.p.has(v),
        ensures
            s == arg_src(*self.p, v),
            s matches Src::Reg(r) ==> r < 31,
            s matches Src::Mem(slot) ==> slot.0 < self.p.frame_slots,
            s matches Src::Lit(l) ==> l.0 < self.st().code.pool.len(),
    {
        match self.p.resident[v.0 as usize] {
            Some(rr) => {
                return Src::Reg(rr);
            },
            None => {},
        }
        match self.p.const_smi[v.0 as usize] {
            Some(cv) => {
                return Src::Imm((cv << 2) as u64);
            },
            None => {},
        }
        match self.assignment_of(v) {
            Assignment::Reg(r) => Src::Reg(r),
            Assignment::Spill(slot) => match self.p.const_pool[v.0 as usize] {
                Some(k) => Src::Lit(self.p.literal_ids[k as usize]),
                None => Src::Mem(slot),
            },
        }
    }

    fn emit_one_move(&mut self, i: u8, s: Src)
        requires
            old(self).ok(),
            i < 31,
            s matches Src::Reg(r) ==> r < 31,
            s matches Src::Mem(slot) ==> slot.0 < old(self).p.frame_slots,
            s matches Src::Lit(l) ==> l.0 < old(self).st().code.pool.len(),
        ensures
            *final(final(self).out) == *final(old(self).out),
            next(*old(self), *final(self), old(self).st().move_one(i, s)),
    {
        proof {
            lemma_mnemonics();
        }
        match s {
            Src::Reg(r) => {
                self.i2("mov", x(i), x(r));
            },
            Src::Mem(slot) => {
                self.emit_spill_access("ldr", x(i), slot);
            },
            Src::Imm(v) => {
                self.emit_mov_imm64(xr(i), v);
            },
            Src::Lit(l) => {
                self.ldl(xr(i), l);
            },
        }
    }

    fn bl(&mut self) -> (off: u32)
        requires
            old(self).ok(),
        ensures
            *final(final(self).out) == *final(old(self).out),
            advanced(
                *old(self),
                *final(self),
                (St { code: old(self).st().code.with(Insn::Bl(RelocKind::InlineCache)), ..old(self).st() }),
            ),
            closes(*old(self), final(self).st()),
            final(self).st().code.sites() == old(self).st().code.sites().push(
                Reloc { offset: off, kind: RelocKind::InlineCache },
            ),
            off == old(self).st().code.offset(),
    {
        proof {
            reveal(Code::literals_ok);
            lemma_call_sites(self.st().code, Insn::Bl(RelocKind::InlineCache));
            lemma_open_plain(self.st().code, Insn::Bl(RelocKind::InlineCache));
        }
        self.out.bl_patchable(RelocKind::InlineCache)
    }

    fn pending(&self, args: &Vec<VReg>) -> (q: Vec<(u8, Src)>)
        requires
            self.ok(),
            args@.len() <= 16,
            forall|i: int| 0 <= i < args@.len() ==> self.p.has(#[trigger] args@[i]),
        ensures
            q@ == pending_of(*self.p, args@),
            forall|k: int| 0 <= k < q@.len() ==> move_ok(*self.p, self.st().code.pool.len(), #[trigger] q@[k]),
    {
        let mut q: Vec<(u8, Src)> = Vec::new();
        let mut i: usize = 0;
        while i < args.len()
            invariant
                i <= args@.len() <= 16,
                self.ok(),
                forall|k: int| 0 <= k < args@.len() ==> self.p.has(#[trigger] args@[k]),
                q@ == pending_of(*self.p, args@.take(i as int)),
                forall|k: int| 0 <= k < q@.len() ==> move_ok(*self.p, self.st().code.pool.len(), #[trigger] q@[k]),
            decreases args@.len() - i,
        {
            assert(args@.take(i as int + 1).drop_last() =~= args@.take(i as int));
            let s: Src = self.source_of(args[i]);
            if s != Src::Reg(i as u8) {
                q.push((i as u8, s));
            }
            i += 1;
        }
        assert(args@.take(i as int) =~= args@);
        q
    }

    /// Marshals the arguments, emits the call and records it.
    pub(crate) fn emit_call_send(&mut self, dst: VReg, site: u16, args: &Vec<VReg>)
        requires
            old(self).ok(),
            old(self).p.has(dst),
            site < old(self).p.call_sites@.len(),
            args@.len() <= 16,
            forall|i: int| 0 <= i < args@.len() ==> old(self).p.has(#[trigger] args@[i]),
        ensures
            *final(final(self).out) == *final(old(self).out),
            reached(*old(self), *final(self), old(self).st().call_send(*old(self).p, dst, site, args@)),
            logged(old(self).ic_sites@, final(self).ic_sites@, old(self).p.call_sites@, site),
    {
        let mut q: Vec<(u8, Src)> = self.pending(args);
        let ghost goal = old(self).st().run_moves(moves(q@));
        while q.len() > 0
            invariant
                old(self).ok(),
                *final(self.out) == *final(old(self).out),
                self.ok(),
                self.p == old(self).p,
                stepped(*old(self), *self, self.st()),
                closes(*old(self), self.st()),
                self.st().run_moves(moves(q@)) == goal,
                forall|k: int| 0 <= k < q@.len() ==> move_ok(*self.p, self.st().code.pool.len(), #[trigger] q@[k]),
            decreases q@.len(),
        {
            let k: usize = free_move(&q);
            let ghost before = q@;
            if k < q.len() {
                let e: (u8, Src) = q[k];
                proof {
                    lemma_run_cons(self.st(), e, moves(before.remove(k as int)));
                }
                self.emit_one_move(e.0, e.1);
                let _ = q.remove(k);
            } else {
                let e: (u8, Src) = q[0];
                proof {
                    let rest = moves(retarget(before.remove(0), e.0));
                    assert(moves(before) =~= seq![(16u8, Src::Reg(e.0))] + (seq![e] + rest));
                    lemma_run_cons(self.st(), (16u8, Src::Reg(e.0)), seq![e] + rest);
                    lemma_run_cons(self.st().move_one(16, Src::Reg(e.0)), e, rest);
                }
                self.emit_one_move(16, Src::Reg(e.0));
                let _ = q.remove(0);
                retarget_moves(&mut q, e.0);
                self.emit_one_move(e.0, e.1);
            }
        }
        self.emit_s2_spill_stores();
        let ghost sites = self.st().code.sites();
        let off: u32 = self.bl();
        self.safepoint();
        assert(self.st().code.sites().drop_last() =~= sites);
        let info: CallSiteInfo = self.p.call_sites[site as usize];
        let rec = EmittedIcSite { off, site, selector: info.selector, argc: info.argc };
        self.ic_sites.push(rec);
        assert(old(self).ic_sites@.push(rec).drop_last() =~= old(self).ic_sites@);
        proof {
            lemma_records(old(self).st(), self.st());
        }
        self.emit_after_call(dst);
    }
}

/// A call site and its record keep in step.
proof fn lemma_records(a: St, s: St)
    requires
        s.ic_sites.len() == a.ic_sites.len() + 1,
        s.ic_sites.drop_last() == a.ic_sites,
        s.code.sites().len() == a.code.sites().len() + 1,
        s.code.sites().drop_last() == a.code.sites(),
        s.ic_sites.last().off == s.code.sites().last().offset,
    ensures
        keeps_records(a, s),
{
    assert forall|base: int| recorded(a.ic_sites, a.code.sites(), base) implies #[trigger] recorded(
        s.ic_sites,
        s.code.sites(),
        base,
    ) by {
        assert forall|i: int| 0 <= i < s.ic_sites.len() implies (#[trigger] s.ic_sites[i]).off == s.code.sites()[base
            + i].offset by {
            if i < a.ic_sites.len() {
                assert(s.ic_sites.drop_last()[i] == s.ic_sites[i]);
                assert(s.code.sites().drop_last()[base + i] == s.code.sites()[base + i]);
                assert(a.ic_sites[i].off == a.code.sites()[base + i].offset);
            }
        }
    }
}

fn free_move(q: &Vec<(u8, Src)>) -> (k: usize)
    ensures
        k == first_free(q@, 0),
{
    let mut k: usize = 0;
    while k < q.len()
        invariant
            k <= q@.len(),
            first_free(q@, 0) == first_free(q@, k as int),
        decreases q@.len() - k,
    {
        if !is_read(q, q[k].0) {
            return k;
        }
        k += 1;
    }
    k
}

fn is_read(q: &Vec<(u8, Src)>, r: u8) -> (b: bool)
    ensures
        b == reads(q@, r),
{
    let mut k: usize = 0;
    while k < q.len()
        invariant
            k <= q@.len(),
            forall|j: int| 0 <= j < k ==> (#[trigger] q@[j]).1 != Src::Reg(r),
        decreases q@.len() - k,
    {
        if q[k].1 == Src::Reg(r) {
            return true;
        }
        k += 1;
    }
    false
}

fn retarget_moves(q: &mut Vec<(u8, Src)>, r: u8)
    ensures
        final(q)@ == retarget(old(q)@, r),
{
    let n: usize = q.len();
    let mut k: usize = 0;
    while k < n
        invariant
            k <= n,
            n == q@.len(),
            n == old(q)@.len(),
            forall|j: int| 0 <= j < k ==> #[trigger] q@[j] == retarget(old(q)@, r)[j],
            forall|j: int| k <= j < n ==> #[trigger] q@[j] == old(q)@[j],
        decreases n - k,
    {
        let e: (u8, Src) = q[k];
        if e.1 == Src::Reg(r) {
            q.set(k, (e.0, Src::Reg(16)));
        }
        k += 1;
    }
    assert(q@ =~= retarget(old(q)@, r));
}

// ── What the moves compute ──────────────────────────────────────────────

/// One send's record follows those before it.
pub open spec fn logged(
    before: Seq<EmittedIcSite>,
    after: Seq<EmittedIcSite>,
    sites: Seq<CallSiteInfo>,
    site: u16,
) -> bool {
    &&& after.len() == before.len() + 1
    &&& after.drop_last() == before
    &&& after.last().site == site
    &&& after.last().selector == sites[site as int].selector
    &&& after.last().argc == sites[site as int].argc
}

/// What moves read and write.
pub struct Machine {
    pub regs: spec_fn(u8) -> u64,
    pub slots: spec_fn(SpillSlot) -> u64,
    pub pool: spec_fn(LiteralId) -> u64,
}

/// The value of a source.
pub open spec fn value(m: Machine, s: Src) -> u64 {
    match s {
        Src::Reg(r) => (m.regs)(r),
        Src::Mem(slot) => (m.slots)(slot),
        Src::Imm(v) => v,
        Src::Lit(l) => (m.pool)(l),
    }
}

/// A slot so deep in the frame that its address is first computed, in `x19`.
pub open spec fn deep(s: Src) -> bool {
    s matches Src::Mem(slot) && spill_off(slot) < -256
}

/// The machine after one move.
pub open spec fn moved(m: Machine, i: u8, s: Src) -> Machine {
    let v = value(m, s);
    Machine {
        regs: |r: u8|
            if r == i {
                v
            } else if r == 19 && deep(s) {
                ((m.regs)(29) + spill_off(s->Mem_0)) as u64
            } else {
                (m.regs)(r)
            },
        ..m
    }
}

/// The machine after moves in order.
pub open spec fn run(m: Machine, ms: Seq<(u8, Src)>) -> Machine
    decreases ms.len(),
{
    if ms.len() == 0 {
        m
    } else {
        run(moved(m, ms[0].0, ms[0].1), ms.drop_first())
    }
}

/// No two moves have the same destination, and none has the scratch register.
pub open spec fn distinct(q: Seq<(u8, Src)>) -> bool {
    &&& forall|a: int, b: int| 0 <= a < b < q.len() ==> (#[trigger] q[a]).0 != (#[trigger] q[b]).0
    &&& forall|a: int| 0 <= a < q.len() ==> (#[trigger] q[a]).0 < 16
}

/// Whether a move reads a deep slot, and with it overwrites `x19`.
pub open spec fn reads_deep(q: Seq<(u8, Src)>) -> bool {
    exists|k: int| 0 <= k < q.len() && deep((#[trigger] q[k]).1)
}

/// Whether a register is a destination.
pub open spec fn written(q: Seq<(u8, Src)>, r: u8) -> bool {
    exists|k: int| 0 <= k < q.len() && (#[trigger] q[k]).0 == r
}

proof fn lemma_first_free(q: Seq<(u8, Src)>, from: int)
    requires
        0 <= from <= q.len(),
    ensures
        from <= first_free(q, from) <= q.len(),
        first_free(q, from) < q.len() ==> !reads(q, q[first_free(q, from)].0),
        first_free(q, from) == q.len() ==> forall|k: int|
            from <= k < q.len() ==> #[trigger] reads(q, q[k].0),
    decreases q.len() - from,
{
    if from < q.len() && reads(q, q[from].0) {
        lemma_first_free(q, from + 1);
    }
}

/// Where every destination is read, every source is a destination.
proof fn lemma_all_read(q: Seq<(u8, Src)>, j: int)
    requires
        distinct(q),
        forall|k: int| 0 <= k < q.len() ==> #[trigger] reads(q, q[k].0),
        0 <= j < q.len(),
    ensures
        q[j].1 matches Src::Reg(r) && written(q, r),
{
    let bad = !(q[j].1 matches Src::Reg(r) && written(q, r));
    if bad {
        let dests = Seq::new(q.len(), |k: int| q[k].0 as int);
        let rest = q.remove(j);
        let srcs = Seq::new(
            rest.len(),
            |k: int|
                match rest[k].1 {
                    Src::Reg(r) => r as int,
                    _ => -1int,
                },
        );
        assert(dests.no_duplicates()) by {
            assert forall|a: int, b: int| 0 <= a < dests.len() && 0 <= b < dests.len() && a != b implies dests[a]
                != dests[b] by {
                if a < b {
                    assert(q[a].0 != q[b].0);
                } else {
                    assert(q[b].0 != q[a].0);
                }
            }
        }
        dests.unique_seq_to_set();
        srcs.lemma_cardinality_of_set();
        assert(dests.to_set().subset_of(srcs.to_set())) by {
            assert forall|d: int| dests.to_set().contains(d) implies srcs.to_set().contains(d) by {
                let k = choose|k: int| 0 <= k < dests.len() && dests[k] == d;
                assert(reads(q, q[k].0));
                let m = choose|m: int| 0 <= m < q.len() && (#[trigger] q[m]).1 == Src::Reg(q[k].0);
                assert(written(q, q[k].0));
                assert(m != j);
                let m2 = if m < j {
                    m
                } else {
                    m - 1
                };
                assert(rest[m2] == q[m]);
                assert(srcs[m2] == d);
            }
        }
        vstd::set_lib::lemma_len_subset(dests.to_set(), srcs.to_set());
        assert(false);
    }
}

proof fn lemma_run_append(m: Machine, e: (u8, Src), ms: Seq<(u8, Src)>)
    ensures
        run(m, seq![e] + ms) == run(moved(m, e.0, e.1), ms),
{
    assert((seq![e] + ms).drop_first() =~= ms);
}

/// The ordered moves are one parallel move: every destination receives the value that its source
/// had before the first move, and apart from the scratch registers nothing else changes. Those are
/// `x16`, and `x19` where a deep slot is read; beside a deep slot, `x19` is no source.
pub proof fn law_moves_are_parallel(m: Machine, q: Seq<(u8, Src)>)
    requires
        distinct(q),
        reads_deep(q) ==> !reads(q, 19),
    ensures
        forall|k: int|
            0 <= k < q.len() ==> (run(m, moves(q)).regs)((#[trigger] q[k]).0) == value(m, q[k].1),
        forall|r: u8|
            r != 16 && !(r == 19 && reads_deep(q)) && !written(q, r) ==> #[trigger] (run(m, moves(q)).regs)(r) == (m.regs)(r),
        run(m, moves(q)).slots == m.slots,
        run(m, moves(q)).pool == m.pool,
    decreases q.len(),
{
    if q.len() == 0 {
    } else {
        lemma_first_free(q, 0);
        let k = first_free(q, 0);
        let end = run(m, moves(q));
        if k < q.len() {
            let e = q[k];
            let rest = q.remove(k);
            let m1 = moved(m, e.0, e.1);
            lemma_run_append(m, e, moves(rest));
            assert(distinct(rest)) by {
                assert forall|a: int, b: int| 0 <= a < b < rest.len() implies (#[trigger] rest[a]).0 != (
                #[trigger] rest[b]).0 by {
                    let a2 = if a < k {
                        a
                    } else {
                        a + 1
                    };
                    let b2 = if b < k {
                        b
                    } else {
                        b + 1
                    };
                    assert(rest[a] == q[a2] && rest[b] == q[b2]);
                }
            }
            lemma_scratch_kept(q, k);
            law_moves_are_parallel(m1, rest);
            assert(!written(rest, e.0)) by {
                if written(rest, e.0) {
                    let j = choose|j: int| 0 <= j < rest.len() && (#[trigger] rest[j]).0 == e.0;
                    let j2 = if j < k {
                        j
                    } else {
                        j + 1
                    };
                    assert(rest[j] == q[j2]);
                }
            }
            assert forall|j: int| 0 <= j < q.len() implies (end.regs)((#[trigger] q[j]).0) == value(m, q[j].1) by {
                if j == k {
                    assert((end.regs)(e.0) == (m1.regs)(e.0));
                } else {
                    let j2 = if j < k {
                        j
                    } else {
                        j - 1
                    };
                    assert(rest[j2] == q[j]);
                    assert(q[j].1 != Src::Reg(e.0));
                    if deep(e.1) {
                        assert(reads_deep(q));
                        assert(q[j].1 != Src::Reg(19));
                    }
                }
            }
            assert forall|r: u8| r != 16 && !(r == 19 && reads_deep(q)) && !written(q, r) implies #[trigger] (end.regs)(r) == (m.regs)(r) by {
                assert(r != e.0) by {
                    assert(q[k].0 == e.0);
                }
                if written(rest, r) {
                    let j = choose|j: int| 0 <= j < rest.len() && (#[trigger] rest[j]).0 == r;
                    let j2 = if j < k {
                        j
                    } else {
                        j + 1
                    };
                    assert(q[j2].0 == r);
                }
            }
        } else {
            let e = q[0];
            let rest = retarget(q.remove(0), e.0);
            let m1 = moved(m, 16, Src::Reg(e.0));
            let m2 = moved(m1, e.0, e.1);
            assert(moves(q) =~= seq![(16u8, Src::Reg(e.0))] + (seq![e] + moves(rest)));
            lemma_run_append(m, (16u8, Src::Reg(e.0)), seq![e] + moves(rest));
            lemma_run_append(m1, e, moves(rest));
            assert forall|a: int| 0 <= a < rest.len() implies (#[trigger] rest[a]).0 == q[a + 1].0 by {}
            assert(distinct(rest)) by {
                assert forall|a: int, b: int| 0 <= a < b < rest.len() implies (#[trigger] rest[a]).0 != (
                #[trigger] rest[b]).0 by {
                    assert(q[a + 1].0 != q[b + 1].0);
                }
            }
            lemma_all_read(q, 0);
            assert forall|j: int| 0 <= j < rest.len() implies (#[trigger] rest[j]).1 is Reg by {
                lemma_all_read(q, j + 1);
                assert(rest[j].1 == if q[j + 1].1 == Src::Reg(e.0) {
                    Src::Reg(16)
                } else {
                    q[j + 1].1
                });
            }
            assert(!reads_deep(rest));
            law_moves_are_parallel(m2, rest);
            let r0 = q[0].1->Reg_0;
            assert(r0 < 16);
            assert(!written(rest, e.0)) by {
                if written(rest, e.0) {
                    let j = choose|j: int| 0 <= j < rest.len() && (#[trigger] rest[j]).0 == e.0;
                    assert(q[j + 1].0 == q[0].0);
                }
            }
            assert forall|j: int| 0 <= j < q.len() implies (end.regs)((#[trigger] q[j]).0) == value(m, q[j].1) by {
                if j == 0 {
                    assert((end.regs)(e.0) == (m2.regs)(e.0));
                } else {
                    lemma_all_read(q, j);
                    let rj = q[j].1->Reg_0;
                    assert(rj < 16);
                    assert(rest[j - 1].0 == q[j].0);
                    assert((end.regs)(rest[j - 1].0) == value(m2, rest[j - 1].1));
                }
            }
            assert forall|r: u8| r != 16 && !(r == 19 && reads_deep(q)) && !written(q, r) implies #[trigger] (end.regs)(r)
                == (m.regs)(r) by {
                assert(q[0].0 != r);
                if written(rest, r) {
                    let j = choose|j: int| 0 <= j < rest.len() && (#[trigger] rest[j]).0 == r;
                    assert(q[j + 1].0 == r);
                }
            }
        }
    }
}

/// What is asked of the scratch register of deep slots holds of fewer moves too.
proof fn lemma_scratch_kept(q: Seq<(u8, Src)>, k: int)
    requires
        0 <= k < q.len(),
        reads_deep(q) ==> !reads(q, 19),
    ensures
        reads_deep(q.remove(k)) ==> reads_deep(q),
        reads_deep(q.remove(k)) ==> !reads(q.remove(k), 19),
{
    let rest = q.remove(k);
    assert forall|j: int| 0 <= j < rest.len() implies #[trigger] rest[j] == q[if j < k {
        j
    } else {
        j + 1
    }] by {}
    if reads_deep(rest) {
        let j = choose|j: int| 0 <= j < rest.len() && deep((#[trigger] rest[j]).1);
        assert(deep(q[if j < k {
            j
        } else {
            j + 1
        }].1));
        if reads(rest, 19) {
            let i = choose|i: int| 0 <= i < rest.len() && (#[trigger] rest[i]).1 == Src::Reg(19);
            assert(q[if i < k {
                i
            } else {
                i + 1
            }].1 == Src::Reg(19));
        }
    }
}

proof fn lemma_pending(p: Plan, args: Seq<VReg>)
    requires
        args.len() <= 16,
    ensures
        distinct(pending_of(p, args)),
        forall|k: int|
            0 <= k < pending_of(p, args).len() ==> {
                let e = #[trigger] pending_of(p, args)[k];
                e.0 < args.len() && e.1 == arg_src(p, args[e.0 as int])
            },
        forall|i: u8|
            0 <= i < args.len() && !(#[trigger] written(pending_of(p, args), i)) ==> arg_src(p, args[i as int])
                == Src::Reg(i),
    decreases args.len(),
{
    if args.len() > 0 {
        let prev = pending_of(p, args.drop_last());
        let q = pending_of(p, args);
        let last = (args.len() - 1) as u8;
        lemma_pending(p, args.drop_last());
        assert forall|i: u8| 0 <= i < args.len() && !(#[trigger] written(q, i)) implies arg_src(p, args[i as int])
            == Src::Reg(i) by {
            if i < last {
                if written(prev, i) {
                    let k = choose|k: int| 0 <= k < prev.len() && (#[trigger] prev[k]).0 == i;
                    assert(q[k].0 == i);
                }
                assert(args.drop_last()[i as int] == args[i as int]);
            } else if arg_src(p, args.last()) != Src::Reg(last) {
                assert(q[prev.len() as int].0 == last);
            }
        }
    }
}

/// Marshalling puts every argument of a send into its register: after the moves, register `i`
/// holds what argument `i`'s source held before them. Beside an argument in a deep slot, none is
/// in `x19`.
pub proof fn law_arguments_in_place(p: Plan, m: Machine, args: Seq<VReg>, i: u8)
    requires
        args.len() <= 16,
        reads_deep(pending_of(p, args)) ==> !reads(pending_of(p, args), 19),
        i < args.len(),
    ensures
        (run(m, moves(pending_of(p, args))).regs)(i) == value(m, arg_src(p, args[i as int])),
{
    lemma_pending(p, args);
    let q = pending_of(p, args);
    law_moves_are_parallel(m, q);
    if written(q, i) {
        let k = choose|k: int| 0 <= k < q.len() && (#[trigger] q[k]).0 == i;
        assert(q[k].0 == i);
    }
}

} // verus!
