//! Which spill slots are worth mirroring, and which resident registers may be authoritative.
use vstd::prelude::*;
use crate::compiler::ir::{def_of, is_safepoint_op, successors, uses_of, BlockId, Ir, IrBlock, VReg};
#[allow(unused_imports)]
use crate::compiler::ir::{code_targets, op_def, op_uses, safepoint_op};
use crate::compiler::regalloc::{Assignment, LiveInterval};
#[allow(unused_imports)]
use crate::compiler::analysis::{lemma_ops_before_monotone, ops_before};

verus! {

// ── Mirroring ───────────────────────────────────────────────────────────

/// The homes and constants of a method's registers.
pub struct Homes<'a> {
    pub assignment: &'a Vec<Option<Assignment>>,
    pub resident: &'a Vec<Option<u8>>,
    pub const_smi: &'a Vec<Option<i64>>,
    pub const_pool: &'a Vec<Option<u32>>,
}

/// The slot whose loads a register causes: a spilled value that is neither resident nor a
/// constant.
pub open spec fn slot_of(h: Homes, v: VReg) -> Option<u16> {
    if h.resident@[v.0 as int] is Some || h.const_smi@[v.0 as int] is Some || h.const_pool@[v.0 as int] is Some {
        None
    } else {
        match h.assignment@[v.0 as int] {
            Some(Assignment::Spill(s)) => Some(s.0),
            _ => None,
        }
    }
}

/// The tables agree in size, and slots lie in the frame.
pub open spec fn homes_ok(h: Homes, slots: nat) -> bool {
    let n = h.assignment@.len();
    &&& h.resident@.len() == n
    &&& h.const_smi@.len() == n
    &&& h.const_pool@.len() == n
    &&& forall|v: int|
        0 <= v < n ==> (#[trigger] h.assignment@[v] matches Some(Assignment::Spill(s)) ==> s.0 < slots)
}

/// Whether an instruction reads a slot, in its uses from the `j`-th on.
pub open spec fn reads_slot(h: Homes, op: Ir, j: int, s: u16) -> bool {
    exists|i: int| j <= i < op_uses(op).len() && 0 <= i && #[trigger] slot_of(h, op_uses(op)[i]) == Some(s)
}

/// Whether a slot is read from instruction `k` on, before the next instruction that may move
/// objects and before the block ends.
pub open spec fn read_from(h: Homes, code: Seq<Ir>, k: int, s: u16) -> bool
    decreases code.len() - k,
{
    if k < 0 || k >= code.len() || safepoint_op(code[k]) {
        false
    } else {
        reads_slot(h, code[k], 0, s) || read_from(h, code, k + 1, s)
    }
}

/// Whether mirroring a slot at instruction `k` pays: the instruction touches a slot, by a use or
/// by its definition, that is read again later in the same straight run.
pub open spec fn pays(h: Homes, code: Seq<Ir>, k: int) -> bool {
    ||| exists|j: int|
        0 <= j < op_uses(code[k]).len() && #[trigger] use_pays(h, code, k, j)
    ||| op_def(code[k]) matches Some(v) && slot_of(h, v) matches Some(s) && read_from(h, code, k + 1, s)
}

/// Whether the `j`-th use of instruction `k` is followed by a read of its slot.
pub open spec fn use_pays(h: Homes, code: Seq<Ir>, k: int, j: int) -> bool {
    slot_of(h, op_uses(code[k])[j]) matches Some(s) && (reads_slot(h, code[k], j + 1, s) || read_from(
        h,
        code,
        k + 1,
        s,
    ))
}

fn slot_for(h: &Homes, v: VReg) -> (r: Option<u16>)
    requires
        v.0 < h.assignment@.len(),
        h.resident@.len() == h.assignment@.len(),
        h.const_smi@.len() == h.assignment@.len(),
        h.const_pool@.len() == h.assignment@.len(),
    ensures
        r == slot_of(*h, v),
{
    let i: usize = v.0 as usize;
    if h.resident[i].is_some() || h.const_smi[i].is_some() || h.const_pool[i].is_some() {
        return None;
    }
    match h.assignment[i] {
        Some(Assignment::Spill(s)) => Some(s.0),
        _ => None,
    }
}

fn falses(n: usize) -> (r: Vec<bool>)
    ensures
        r@.len() == n,
        forall|k: int| 0 <= k < n ==> !#[trigger] r@[k],
{
    let mut r: Vec<bool> = Vec::new();
    let mut i: usize = 0;
    while i < n
        invariant
            i <= n,
            r@.len() == i,
            forall|k: int| 0 <= k < i ==> !#[trigger] r@[k],
        decreases n - i,
    {
        r.push(false);
        i += 1;
    }
    r
}

/// The registers of a block's instructions have homes in the tables.
pub open spec fn block_regs_ok(code: Seq<Ir>, n: nat) -> bool {
    forall|k: int| 0 <= k < code.len() ==> crate::compiler::analysis::regs_ok(#[trigger] code[k], n)
}

/// One instruction, scanning backwards: `later` says which slots are read after it and, on
/// return, which are read from it on. Answers whether mirroring pays here.
fn scan_op(h: &Homes, code: &Vec<Ir>, k: usize, later: &mut Vec<bool>) -> (mark: bool)
    requires
        k < code@.len(),
        homes_ok(*h, old(later)@.len()),
        block_regs_ok(code@, h.assignment@.len()),
        forall|s: u16| s < old(later)@.len() ==> #[trigger] old(later)@[s as int] == read_from(*h, code@, k + 1, s),
    ensures
        mark == pays(*h, code@, k as int),
        final(later)@.len() == old(later)@.len(),
        forall|s: u16| s < final(later)@.len() ==> #[trigger] final(later)@[s as int] == read_from(*h, code@, k as int, s),
{
    let op: &Ir = &code[k];
    let ghost after = later@;
    proof {
        assert(crate::compiler::analysis::regs_ok(code@[k as int], h.assignment@.len()));
    }
    let mut mark: bool = false;
    match def_of(op) {
        Some(v) => {
            match slot_for(h, v) {
                Some(s) => {
                    mark = later[s as usize];
                },
                None => {},
            }
        },
        None => {},
    }
    let ghost def_mark = mark;
    let uses: Vec<VReg> = uses_of(op);
    let mut j: usize = uses.len();
    while j > 0
        invariant
            j <= uses@.len(),
            k < code@.len(),
            *op == code@[k as int],
            uses@ == op_uses(*op),
            homes_ok(*h, later@.len()),
            crate::compiler::analysis::regs_ok(*op, h.assignment@.len()),
            later@.len() == after.len(),
            forall|s: u16| s < after.len() ==> #[trigger] after[s as int] == read_from(*h, code@, k + 1, s),
            forall|s: u16|
                s < later@.len() ==> #[trigger] later@[s as int] == (after[s as int] || reads_slot(
                    *h,
                    *op,
                    j as int,
                    s,
                )),
            mark == (def_mark || exists|q: int|
                j <= q < op_uses(*op).len() && #[trigger] use_pays(*h, code@, k as int, q)),
        decreases j,
    {
        j -= 1;
        let v: VReg = uses[j];
        let ghost before = later@;
        proof {
            assert(op_uses(*op)[j as int].0 < h.assignment@.len());
        }
        match slot_for(h, v) {
            Some(s) => {
                proof {
                    assert(before[s as int] == (after[s as int] || reads_slot(*h, *op, j + 1, s)));
                    assert(before[s as int] == use_pays(*h, code@, k as int, j as int));
                }
                if later[s as usize] {
                    mark = true;
                }
                later.set(s as usize, true);
                proof {
                    assert(slot_of(*h, op_uses(*op)[j as int]) == Some(s));
                    assert forall|t: u16| t < later@.len() implies #[trigger] later@[t as int] == (after[t as int]
                        || reads_slot(*h, *op, j as int, t)) by {
                        lemma_reads_split(*h, *op, j as int, t);
                        assert(before[t as int] == (after[t as int] || reads_slot(*h, *op, j + 1, t)));
                    }
                }
            },
            None => {
                proof {
                    assert(!use_pays(*h, code@, k as int, j as int));
                    assert forall|t: u16| t < later@.len() implies #[trigger] later@[t as int] == (after[t as int]
                        || reads_slot(*h, *op, j as int, t)) by {
                        lemma_reads_split(*h, *op, j as int, t);
                    }
                }
            },
        }
    }
    if is_safepoint_op(op) {
        let n: usize = later.len();
        *later = falses(n);
    }
    mark
}

proof fn lemma_reads_split(h: Homes, op: Ir, j: int, s: u16)
    requires
        0 <= j < op_uses(op).len(),
    ensures
        reads_slot(h, op, j, s) == (slot_of(h, op_uses(op)[j]) == Some(s) || reads_slot(h, op, j + 1, s)),
{
    if reads_slot(h, op, j, s) {
        let i = choose|i: int|
            j <= i < op_uses(op).len() && 0 <= i && #[trigger] slot_of(h, op_uses(op)[i]) == Some(s);
        if i != j {
            assert(j + 1 <= i);
        }
    }
}

/// Per position: whether mirroring the slots that are touched there pays.
pub fn r1a_profitable_positions(blocks: &Vec<IrBlock>, order: &Vec<BlockId>, h: &Homes, slots: u16) -> (out: Vec<bool>)
    requires
        homes_ok(*h, slots as nat),
        forall|i: int| 0 <= i < order@.len() ==> (#[trigger] order@[i]).0 < blocks@.len(),
        forall|b: int| 0 <= b < blocks@.len() ==> block_regs_ok((#[trigger] blocks@[b]).code@, h.assignment@.len()),
    ensures
        profitable_result(out@, blocks@, order@, *h, order@.len() as int),
        out@.len() == ops_before(blocks@, order@, order@.len() as int),
{
    let mut out: Vec<bool> = Vec::new();
    let mut i: usize = 0;
    while i < order.len()
        invariant
            i <= order@.len(),
            homes_ok(*h, slots as nat),
            forall|q: int| 0 <= q < order@.len() ==> (#[trigger] order@[q]).0 < blocks@.len(),
            forall|b: int| 0 <= b < blocks@.len() ==> block_regs_ok((#[trigger] blocks@[b]).code@, h.assignment@.len()),
            out@.len() == ops_before(blocks@, order@, i as int),
            profitable_result(out@, blocks@, order@, *h, i as int),
        decreases order@.len() - i,
    {
        proof {
            assert(order@[i as int].0 < blocks@.len());
        }
        let b: usize = order[i].0 as usize;
        let marks: Vec<bool> = profitable_in_block(&blocks[b].code, h, slots);
        let ghost before = out@;
        let mut k: usize = 0;
        while k < marks.len()
            invariant
                k <= marks@.len(),
                out@ == before + marks@.take(k as int),
            decreases marks@.len() - k,
        {
            out.push(marks[k]);
            assert(before + marks@.take(k as int + 1) =~= (before + marks@.take(k as int)).push(marks@[k as int]));
            k += 1;
        }
        proof {
            assert(marks@.take(k as int) =~= marks@);
            assert forall|i2: int, k2: int|
                #![trigger blocks@[order@[i2].0 as int].code@[k2]]
                0 <= i2 < i + 1 && 0 <= k2 < blocks@[order@[i2].0 as int].code@.len() implies out@[ops_before(
                blocks@,
                order@,
                i2,
            ) + k2] == pays(*h, blocks@[order@[i2].0 as int].code@, k2) by {
                if i2 < i {
                    lemma_ops_before_monotone(blocks@, order@, i2 + 1, i as int);
                    assert(out@[ops_before(blocks@, order@, i2) + k2] == before[ops_before(blocks@, order@, i2) + k2]);
                } else {
                    assert(out@[before.len() + k2] == marks@[k2]);
                }
            }
        }
        i += 1;
    }
    out
}

/// The marks of the first blocks of the order say where mirroring pays.
pub open spec fn profitable_result(
    out: Seq<bool>,
    blocks: Seq<IrBlock>,
    order: Seq<BlockId>,
    h: Homes,
    upto: int,
) -> bool {
    forall|i: int, k: int|
        #![trigger blocks[order[i].0 as int].code@[k]]
        0 <= i < upto && 0 <= k < blocks[order[i].0 as int].code@.len() ==> out[ops_before(blocks, order, i) + k]
            == pays(h, blocks[order[i].0 as int].code@, k)
}

fn profitable_in_block(code: &Vec<Ir>, h: &Homes, slots: u16) -> (marks: Vec<bool>)
    requires
        homes_ok(*h, slots as nat),
        block_regs_ok(code@, h.assignment@.len()),
    ensures
        marks@.len() == code@.len(),
        forall|k: int| 0 <= k < code@.len() ==> #[trigger] marks@[k] == pays(*h, code@, k),
{
    let n: usize = code.len();
    let mut marks: Vec<bool> = falses(n);
    let mut later: Vec<bool> = falses(slots as usize);
    let mut k: usize = n;
    while k > 0
        invariant
            k <= n,
            n == code@.len(),
            homes_ok(*h, slots as nat),
            block_regs_ok(code@, h.assignment@.len()),
            marks@.len() == n,
            later@.len() == slots,
            forall|s: u16| s < later@.len() ==> #[trigger] later@[s as int] == read_from(*h, code@, k as int, s),
            forall|q: int| k <= q < n ==> #[trigger] marks@[q] == pays(*h, code@, q),
        decreases k,
    {
        k -= 1;
        let mark: bool = scan_op(h, code, k, &mut later);
        marks.set(k, mark);
    }
    marks
}

// ── Authoritative registers ─────────────────────────────────────────────

/// What the selection reads of a method.
pub struct SelectionInput<'a> {
    pub blocks: &'a Vec<IrBlock>,
    pub intervals: &'a Vec<LiveInterval>,
    pub block_order: &'a Vec<BlockId>,
    pub block_start_pos: &'a Vec<u32>,
    pub safepoint_positions: &'a Vec<u32>,
    pub extra_oop_live: &'a Vec<(VReg, u32)>,
    pub known_smi: &'a Vec<bool>,
    pub const_smi: &'a Vec<Option<i64>>,
    pub const_pool: &'a Vec<Option<u32>>,
}

/// Each register has one interval at most, tables cover the registers, and registers with extra
/// facts have an interval.
pub open spec fn selection_ok(t: SelectionInput) -> bool {
    let n = t.known_smi@.len();
    &&& t.const_smi@.len() == n
    &&& t.const_pool@.len() == n
    &&& t.block_order@.len() > 0
    &&& t.block_start_pos@.len() == t.block_order@.len()
    &&& forall|i: int| 0 <= i < t.block_order@.len() ==> (#[trigger] t.block_order@[i]).0 < t.blocks@.len()
    &&& forall|b: int, i: int|
        0 <= b < t.blocks@.len() && 0 <= i < code_targets(t.blocks@[b].code@).len() ==> (#[trigger] code_targets(
            t.blocks@[b].code@,
        )[i]).0 < t.blocks@.len()
    &&& forall|i: int| 0 <= i < t.intervals@.len() ==> (#[trigger] t.intervals@[i]).vreg.0 < n
    &&& forall|i: int, j: int|
        0 <= i < j < t.intervals@.len() ==> (#[trigger] t.intervals@[i]).vreg != (#[trigger] t.intervals@[j]).vreg
    &&& forall|i: int| 0 <= i < t.extra_oop_live@.len() ==> has_interval(t, (#[trigger] t.extra_oop_live@[i]).0)
}

/// Whether a register has an interval.
pub open spec fn has_interval(t: SelectionInput, v: VReg) -> bool {
    exists|i: int| 0 <= i < t.intervals@.len() && (#[trigger] t.intervals@[i]).vreg == v
}

/// The block that a position belongs to: the last in the order that starts at or before it.
pub open spec fn order_index(starts: Seq<u32>, pos: u32, k: int) -> int
    decreases k,
{
    if k <= 0 {
        0
    } else if starts[k] <= pos {
        k
    } else {
        order_index(starts, pos, k - 1)
    }
}

pub open spec fn block_of(t: SelectionInput, pos: u32) -> u32 {
    t.block_order@[order_index(t.block_start_pos@, pos, t.block_order@.len() - 1)].0
}

/// The first position after the entry's straight run.
pub open spec fn horizon(t: SelectionInput) -> u32 {
    if t.block_order@.len() > 1 {
        t.block_start_pos@[1]
    } else {
        u32::MAX
    }
}

/// A spilled general register with a resident, which holds small integers only and is no constant.
pub open spec fn candidate(t: SelectionInput, iv: LiveInterval) -> bool {
    &&& iv.resident_reg is Some
    &&& iv.assignment matches Some(Assignment::Spill(_))
    &&& !iv.is_fp
    &&& t.known_smi@[iv.vreg.0 as int]
    &&& t.const_smi@[iv.vreg.0 as int] is None
    &&& t.const_pool@[iv.vreg.0 as int] is None
}

/// The blocks with an edge to a block, once per edge.
pub open spec fn preds_of(blocks: Seq<IrBlock>, to: u32, k: int) -> Seq<u32>
    decreases k,
{
    if k <= 0 {
        Seq::empty()
    } else {
        preds_of(blocks, to, k - 1) + repeat((k - 1) as u32, edges_to(code_targets(blocks[k - 1].code@), to))
    }
}

/// How many targets are the block.
pub open spec fn edges_to(targets: Seq<BlockId>, to: u32) -> nat
    decreases targets.len(),
{
    if targets.len() == 0 {
        0
    } else {
        edges_to(targets.drop_last(), to) + (if targets.last().0 == to {
            1nat
        } else {
            0nat
        })
    }
}

pub open spec fn repeat(b: u32, k: nat) -> Seq<u32> {
    Seq::new(k, |i: int| b)
}

/// Whether the chain of single predecessors, at most `k` long, leads from a block up to another.
pub open spec fn chain(t: SelectionInput, from: u32, to: u32, k: nat) -> bool
    decreases k,
{
    if k == 0 {
        false
    } else {
        let ps = preds_of(t.blocks@, from, t.blocks@.len() as int);
        ps.len() == 1 && (ps[0] == to || chain(t, ps[0], to, (k - 1) as nat))
    }
}

/// Whether an observation is made only after the definition: later in its block, or in a block
/// that the single-predecessor chain ties to it.
pub open spec fn dominates(t: SelectionInput, def_pos: u32, obs: u32) -> bool {
    let db = block_of(t, def_pos);
    let ob = block_of(t, obs);
    if ob == db {
        def_pos <= obs
    } else {
        chain(t, ob, db, 64)
    }
}

/// Every place that can observe the slot comes after the definition.
pub open spec fn observed_after(t: SelectionInput, iv: LiveInterval) -> bool {
    &&& forall|i: int|
        0 <= i < t.safepoint_positions@.len() && iv.start <= #[trigger] t.safepoint_positions@[i] < iv.end
            ==> dominates(t, iv.start, t.safepoint_positions@[i])
    &&& forall|i: int|
        0 <= i < t.extra_oop_live@.len() && (#[trigger] t.extra_oop_live@[i]).0 == iv.vreg && t.extra_oop_live@[i].1
            >= iv.start ==> dominates(t, iv.start, t.extra_oop_live@[i].1)
}

/// Whether another register's resident occupies this one's register at a position.
pub open spec fn contested(t: SelectionInput, iv: LiveInterval, pos: u32) -> bool {
    exists|i: int|
        0 <= i < t.intervals@.len() && (#[trigger] t.intervals@[i]).vreg != iv.vreg && t.intervals@[i].resident_reg
            == iv.resident_reg && t.intervals@[i].start <= pos < t.intervals@[i].end
}

/// Whether an extra fact outside the range finds the register contested.
pub open spec fn demoted(t: SelectionInput, iv: LiveInterval) -> bool {
    exists|i: int|
        0 <= i < t.extra_oop_live@.len() && (#[trigger] t.extra_oop_live@[i]).0 == iv.vreg && t.extra_oop_live@[i].1
            >= iv.end && t.extra_oop_live@[i].1 >= iv.start && contested(t, iv, t.extra_oop_live@[i].1)
}

/// Whether an interval's resident register is authoritative.
pub open spec fn authoritative(t: SelectionInput, iv: LiveInterval) -> bool {
    candidate(t, iv) && (iv.start < horizon(t) || observed_after(t, iv)) && !demoted(t, iv)
}

fn block_at(t: &SelectionInput, pos: u32) -> (b: u32)
    requires
        selection_ok(*t),
    ensures
        b == block_of(*t, pos),
{
    let mut k: usize = t.block_order.len() - 1;
    while k > 0
        invariant
            k < t.block_order@.len(),
            t.block_start_pos@.len() == t.block_order@.len(),
            order_index(t.block_start_pos@, pos, t.block_order@.len() - 1) == order_index(
                t.block_start_pos@,
                pos,
                k as int,
            ),
        decreases k,
    {
        if t.block_start_pos[k] <= pos {
            return t.block_order[k].0;
        }
        k -= 1;
    }
    t.block_order[0].0
}

/// The predecessors of every block.
fn all_preds(blocks: &Vec<IrBlock>) -> (r: Vec<Vec<u32>>)
    requires
        blocks@.len() <= u32::MAX,
        forall|b: int, i: int|
            0 <= b < blocks@.len() && 0 <= i < code_targets(blocks@[b].code@).len() ==> (#[trigger] code_targets(
                blocks@[b].code@,
            )[i]).0 < blocks@.len(),
    ensures
        r@.len() == blocks@.len(),
        forall|b: int| 0 <= b < r@.len() ==> (#[trigger] r@[b])@ == preds_of(blocks@, b as u32, blocks@.len() as int),
{
    let n: usize = blocks.len();
    let mut r: Vec<Vec<u32>> = Vec::new();
    let mut i: usize = 0;
    while i < n
        invariant
            i <= n,
            r@.len() == i,
            forall|b: int| 0 <= b < i ==> (#[trigger] r@[b])@ == Seq::<u32>::empty(),
        decreases n - i,
    {
        r.push(Vec::new());
        i += 1;
    }
    let mut k: usize = 0;
    while k < n
        invariant
            k <= n,
            n == blocks@.len(),
            n <= u32::MAX,
            r@.len() == n,
            forall|b: int, i: int|
                0 <= b < blocks@.len() && 0 <= i < code_targets(blocks@[b].code@).len() ==> (#[trigger] code_targets(
                    blocks@[b].code@,
                )[i]).0 < blocks@.len(),
            forall|b: int| 0 <= b < n ==> (#[trigger] r@[b])@ == preds_of(blocks@, b as u32, k as int),
        decreases n - k,
    {
        let succ: Vec<BlockId> = successors(&blocks[k]);
        let ghost before = r@;
        let mut j: usize = 0;
        while j < succ.len()
            invariant
                j <= succ@.len(),
                n == blocks@.len(),
                n <= u32::MAX,
                k < n,
                r@.len() == n,
                before.len() == n,
                succ@ == code_targets(blocks@[k as int].code@),
                forall|i: int| 0 <= i < succ@.len() ==> (#[trigger] succ@[i]).0 < n,
                forall|b: int|
                    0 <= b < n ==> (#[trigger] r@[b])@ == before[b]@ + repeat(
                        k as u32,
                        edges_to(succ@.take(j as int), b as u32),
                    ),
            decreases succ@.len() - j,
        {
            let to: usize = succ[j].0 as usize;
            let ghost mid = r@;
            let mut row: Vec<u32> = r[to].clone();
            row.push(k as u32);
            r.set(to, row);
            proof {
                let t1 = succ@.take(j as int + 1);
                assert(t1.drop_last() =~= succ@.take(j as int));
                assert forall|b: int| 0 <= b < n implies (#[trigger] r@[b])@ == before[b]@ + repeat(
                    k as u32,
                    edges_to(t1, b as u32),
                ) by {
                    if b == to {
                        assert(r@[b]@ =~= before[b]@ + repeat(k as u32, edges_to(t1, b as u32)));
                    } else {
                        assert(r@[b] == mid[b]);
                    }
                }
            }
            j += 1;
        }
        proof {
            assert(succ@.take(j as int) =~= succ@);
        }
        k += 1;
    }
    r
}

fn chain_up(t: &SelectionInput, preds: &Vec<Vec<u32>>, from: u32, to: u32) -> (r: bool)
    requires
        preds@.len() == t.blocks@.len(),
        forall|b: int|
            0 <= b < preds@.len() ==> (#[trigger] preds@[b])@ == preds_of(t.blocks@, b as u32, t.blocks@.len() as int),
        from < t.blocks@.len(),
        t.blocks@.len() <= u32::MAX,
    ensures
        r == chain(*t, from, to, 64),
{
    let mut cur: u32 = from;
    let mut k: u32 = 64;
    while k > 0
        invariant
            k <= 64,
            cur < t.blocks@.len(),
            t.blocks@.len() <= u32::MAX,
            preds@.len() == t.blocks@.len(),
            forall|b: int|
                0 <= b < preds@.len() ==> (#[trigger] preds@[b])@ == preds_of(
                    t.blocks@,
                    b as u32,
                    t.blocks@.len() as int,
                ),
            chain(*t, from, to, 64) == chain(*t, cur, to, k as nat),
        decreases k,
    {
        let ps: &Vec<u32> = &preds[cur as usize];
        proof {
            lemma_preds_in_range(t.blocks@, cur, t.blocks@.len() as int);
        }
        if ps.len() != 1 {
            return false;
        }
        if ps[0] == to {
            return true;
        }
        cur = ps[0];
        k -= 1;
    }
    false
}

proof fn lemma_preds_in_range(blocks: Seq<IrBlock>, to: u32, k: int)
    requires
        0 <= k <= blocks.len(),
        blocks.len() <= u32::MAX,
    ensures
        forall|i: int| 0 <= i < preds_of(blocks, to, k).len() ==> (#[trigger] preds_of(blocks, to, k)[i]) < blocks.len(),
    decreases k,
{
    if k > 0 {
        lemma_preds_in_range(blocks, to, k - 1);
        let prev = preds_of(blocks, to, k - 1);
        assert forall|i: int| 0 <= i < preds_of(blocks, to, k).len() implies (#[trigger] preds_of(blocks, to, k)[i])
            < blocks.len() by {
            if i < prev.len() {
                assert(preds_of(blocks, to, k)[i] == prev[i]);
            } else {
                assert(preds_of(blocks, to, k)[i] == (k - 1) as u32);
            }
        }
    }
}

fn is_dominated(t: &SelectionInput, preds: &Vec<Vec<u32>>, def_pos: u32, obs: u32) -> (r: bool)
    requires
        selection_ok(*t),
        t.blocks@.len() <= u32::MAX,
        preds@.len() == t.blocks@.len(),
        forall|b: int|
            0 <= b < preds@.len() ==> (#[trigger] preds@[b])@ == preds_of(t.blocks@, b as u32, t.blocks@.len() as int),
    ensures
        r == dominates(*t, def_pos, obs),
{
    let db: u32 = block_at(t, def_pos);
    let ob: u32 = block_at(t, obs);
    proof {
        lemma_order_index(t.block_start_pos@, obs, t.block_order@.len() - 1);
    }
    if ob == db {
        def_pos <= obs
    } else {
        chain_up(t, preds, ob, db)
    }
}

proof fn lemma_order_index(starts: Seq<u32>, pos: u32, k: int)
    requires
        k >= 0,
    ensures
        0 <= order_index(starts, pos, k) <= k,
    decreases k,
{
    if k > 0 {
        lemma_order_index(starts, pos, k - 1);
    }
}

fn is_candidate(t: &SelectionInput, iv: &LiveInterval) -> (r: bool)
    requires
        iv.vreg.0 < t.known_smi@.len(),
        t.const_smi@.len() == t.known_smi@.len(),
        t.const_pool@.len() == t.known_smi@.len(),
    ensures
        r == candidate(*t, *iv),
{
    let v: usize = iv.vreg.0 as usize;
    let spilled: bool = match iv.assignment {
        Some(Assignment::Spill(_)) => true,
        _ => false,
    };
    iv.resident_reg.is_some() && spilled && !iv.is_fp && t.known_smi[v] && t.const_smi[v].is_none()
        && t.const_pool[v].is_none()
}

fn is_observed_after(t: &SelectionInput, preds: &Vec<Vec<u32>>, iv: &LiveInterval) -> (r: bool)
    requires
        selection_ok(*t),
        t.blocks@.len() <= u32::MAX,
        preds@.len() == t.blocks@.len(),
        forall|b: int|
            0 <= b < preds@.len() ==> (#[trigger] preds@[b])@ == preds_of(t.blocks@, b as u32, t.blocks@.len() as int),
    ensures
        r == observed_after(*t, *iv),
{
    let mut i: usize = 0;
    while i < t.safepoint_positions.len()
        invariant
            i <= t.safepoint_positions@.len(),
            selection_ok(*t),
            t.blocks@.len() <= u32::MAX,
            preds@.len() == t.blocks@.len(),
            forall|b: int|
                0 <= b < preds@.len() ==> (#[trigger] preds@[b])@ == preds_of(
                    t.blocks@,
                    b as u32,
                    t.blocks@.len() as int,
                ),
            forall|q: int|
                0 <= q < i && iv.start <= #[trigger] t.safepoint_positions@[q] < iv.end ==> dominates(
                    *t,
                    iv.start,
                    t.safepoint_positions@[q],
                ),
        decreases t.safepoint_positions@.len() - i,
    {
        let sp: u32 = t.safepoint_positions[i];
        if iv.start <= sp && sp < iv.end && !is_dominated(t, preds, iv.start, sp) {
            return false;
        }
        i += 1;
    }
    let mut j: usize = 0;
    while j < t.extra_oop_live.len()
        invariant
            j <= t.extra_oop_live@.len(),
            selection_ok(*t),
            t.blocks@.len() <= u32::MAX,
            preds@.len() == t.blocks@.len(),
            forall|b: int|
                0 <= b < preds@.len() ==> (#[trigger] preds@[b])@ == preds_of(
                    t.blocks@,
                    b as u32,
                    t.blocks@.len() as int,
                ),
            forall|q: int|
                0 <= q < t.safepoint_positions@.len() && iv.start <= #[trigger] t.safepoint_positions@[q] < iv.end
                    ==> dominates(*t, iv.start, t.safepoint_positions@[q]),
            forall|q: int|
                0 <= q < j && (#[trigger] t.extra_oop_live@[q]).0 == iv.vreg && t.extra_oop_live@[q].1 >= iv.start
                    ==> dominates(*t, iv.start, t.extra_oop_live@[q].1),
        decreases t.extra_oop_live@.len() - j,
    {
        let e: (VReg, u32) = t.extra_oop_live[j];
        if e.0 == iv.vreg && e.1 >= iv.start && !is_dominated(t, preds, iv.start, e.1) {
            return false;
        }
        j += 1;
    }
    true
}

fn is_contested(t: &SelectionInput, iv: &LiveInterval, pos: u32) -> (r: bool)
    ensures
        r == contested(*t, *iv, pos),
{
    let mut i: usize = 0;
    while i < t.intervals.len()
        invariant
            i <= t.intervals@.len(),
            forall|q: int|
                0 <= q < i ==> !((#[trigger] t.intervals@[q]).vreg != iv.vreg && t.intervals@[q].resident_reg
                    == iv.resident_reg && t.intervals@[q].start <= pos < t.intervals@[q].end),
        decreases t.intervals@.len() - i,
    {
        let o: LiveInterval = t.intervals[i];
        if o.vreg != iv.vreg && o.resident_reg == iv.resident_reg && o.start <= pos && pos < o.end {
            assert(t.intervals@[i as int] == o);
            return true;
        }
        i += 1;
    }
    false
}

fn is_demoted(t: &SelectionInput, iv: &LiveInterval) -> (r: bool)
    ensures
        r == demoted(*t, *iv),
{
    let mut i: usize = 0;
    while i < t.extra_oop_live.len()
        invariant
            i <= t.extra_oop_live@.len(),
            forall|q: int|
                0 <= q < i ==> !((#[trigger] t.extra_oop_live@[q]).0 == iv.vreg && t.extra_oop_live@[q].1 >= iv.end
                    && t.extra_oop_live@[q].1 >= iv.start && contested(*t, *iv, t.extra_oop_live@[q].1)),
        decreases t.extra_oop_live@.len() - i,
    {
        let e: (VReg, u32) = t.extra_oop_live[i];
        if e.0 == iv.vreg && e.1 >= iv.end && e.1 >= iv.start && is_contested(t, iv, e.1) {
            assert(t.extra_oop_live@[i as int] == e);
            return true;
        }
        i += 1;
    }
    false
}

/// Per register: whether its resident is authoritative. Nothing is selected where the mode is
/// off.
pub fn select_authoritative(t: &SelectionInput, active: bool) -> (s2: Vec<bool>)
    requires
        selection_ok(*t),
        t.blocks@.len() <= u32::MAX,
    ensures
        s2@.len() == t.known_smi@.len(),
        forall|i: int|
            0 <= i < t.intervals@.len() ==> s2@[(#[trigger] t.intervals@[i]).vreg.0 as int] == (active && authoritative(
                *t,
                t.intervals@[i],
            )),
        forall|v: u32|
            v < t.known_smi@.len() && !has_interval(*t, VReg(v)) ==> !#[trigger] s2@[v as int],
{
    let mut s2: Vec<bool> = falses(t.known_smi.len());
    if !active {
        return s2;
    }
    let preds: Vec<Vec<u32>> = all_preds(t.blocks);
    let n: usize = t.intervals.len();
    let mut i: usize = 0;
    while i < n
        invariant
            i <= n,
            n == t.intervals@.len(),
            selection_ok(*t),
            t.blocks@.len() <= u32::MAX,
            preds@.len() == t.blocks@.len(),
            forall|b: int|
                0 <= b < preds@.len() ==> (#[trigger] preds@[b])@ == preds_of(
                    t.blocks@,
                    b as u32,
                    t.blocks@.len() as int,
                ),
            s2@.len() == t.known_smi@.len(),
            forall|q: int|
                0 <= q < i ==> s2@[(#[trigger] t.intervals@[q]).vreg.0 as int] == authoritative(*t, t.intervals@[q]),
            forall|v: u32|
                v < t.known_smi@.len() && (forall|q: int| 0 <= q < i ==> (#[trigger] t.intervals@[q]).vreg.0 != v)
                    ==> !#[trigger] s2@[v as int],
        decreases n - i,
    {
        let iv: LiveInterval = t.intervals[i];
        let h: u32 = if t.block_order.len() > 1 {
            t.block_start_pos[1]
        } else {
            u32::MAX
        };
        proof {
            assert(t.intervals@[i as int].vreg.0 < t.known_smi@.len());
        }
        let chosen: bool = is_candidate(t, &iv) && (iv.start < h || is_observed_after(t, &preds, &iv)) && !is_demoted(
            t,
            &iv,
        );
        let ghost before = s2@;
        s2.set(iv.vreg.0 as usize, chosen);
        proof {
            assert forall|q: int| 0 <= q < i + 1 implies s2@[(#[trigger] t.intervals@[q]).vreg.0 as int]
                == authoritative(*t, t.intervals@[q]) by {
                if q < i {
                    assert(t.intervals@[q].vreg != t.intervals@[i as int].vreg);
                }
            }
            assert forall|v: u32|
                v < t.known_smi@.len() && (forall|q: int| 0 <= q < i + 1 ==> (#[trigger] t.intervals@[q]).vreg.0 != v)
                implies !#[trigger] s2@[v as int] by {
                assert(t.intervals@[i as int].vreg.0 != v);
                assert(!before[v as int]);
            }
        }
        i += 1;
    }
    proof {
        assert forall|v: u32| v < t.known_smi@.len() && !has_interval(*t, VReg(v)) implies !#[trigger] s2@[v as int] by {
            assert forall|q: int| 0 <= q < n implies (#[trigger] t.intervals@[q]).vreg.0 != v by {
                if t.intervals@[q].vreg.0 == v {
                    assert(t.intervals@[q].vreg == VReg(v));
                }
            }
        }
    }
    s2
}

} // verus!
