//! What the choice of mirrored slots and authoritative registers rests on: straight runs, and the ways
//! that lead to a block.
use vstd::prelude::*;
#[allow(unused_imports)]
use crate::compiler::ir::{code_targets, op_def, op_uses, safepoint_op, BlockId, Ir, IrBlock, VReg};
#[allow(unused_imports)]
use crate::compiler::regalloc::{Assignment, LiveInterval};
#[allow(unused_imports)]
use crate::compiler::residency::{
    authoritative, block_of, candidate, chain, contested, demoted, dominates, edges_to, horizon, observed_after,
    order_index, pays, preds_of, read_from, reads_slot, repeat, slot_of, use_pays, Homes, SelectionInput,
};

verus! {

// ── Mirrored slots ──────────────────────────────────────────────────────

/// Whether no instruction of a stretch may move objects.
pub open spec fn calm(code: Seq<Ir>, from: int, to: int) -> bool {
    forall|i: int| from <= i < to ==> !safepoint_op(#[trigger] code[i])
}

/// Whether a register is kept in a slot and nowhere else.
pub open spec fn kept_in(h: Homes, v: VReg, s: u16) -> bool {
    &&& h.resident@[v.0 as int] is None
    &&& h.const_smi@[v.0 as int] is None
    &&& h.const_pool@[v.0 as int] is None
    &&& h.assignment@[v.0 as int] matches Some(Assignment::Spill(x))
    &&& x.0 == s
}

/// Whether an instruction uses a register that is kept in a slot, behind its first `j` uses.
pub open spec fn uses_kept(h: Homes, op: Ir, j: int, s: u16) -> bool {
    exists|i: int| 0 <= i && j <= i < op_uses(op).len() && kept_in(h, #[trigger] op_uses(op)[i], s)
}

proof fn lemma_reads(h: Homes, op: Ir, j: int, s: u16)
    ensures
        reads_slot(h, op, j, s) == uses_kept(h, op, j, s),
{
    if reads_slot(h, op, j, s) {
        let i = choose|i: int| j <= i < op_uses(op).len() && 0 <= i && #[trigger] slot_of(h, op_uses(op)[i]) == Some(s);
        assert(kept_in(h, op_uses(op)[i], s));
    }
    if uses_kept(h, op, j, s) {
        let i = choose|i: int| 0 <= i && j <= i < op_uses(op).len() && kept_in(h, #[trigger] op_uses(op)[i], s);
        assert(slot_of(h, op_uses(op)[i]) == Some(s));
    }
}

/// Whether an instruction of a stretch uses a register that is kept in a slot, with none before it, nor
/// itself, that may move objects.
pub open spec fn used_ahead(h: Homes, code: Seq<Ir>, k: int, s: u16) -> bool {
    exists|i: int| 0 <= k <= i < code.len() && #[trigger] uses_kept(h, code[i], 0, s) && calm(code, k, i + 1)
}

proof fn lemma_read_ahead(h: Homes, code: Seq<Ir>, k: int, s: u16)
    requires
        0 <= k,
    ensures
        read_from(h, code, k, s) == used_ahead(h, code, k, s),
    decreases code.len() - k,
{
    if k < code.len() {
        lemma_read_ahead(h, code, k + 1, s);
        lemma_reads(h, code[k], 0, s);
        if read_from(h, code, k, s) {
            if uses_kept(h, code[k], 0, s) {
                assert(calm(code, k, k + 1));
            } else {
                let i = choose|i: int|
                    0 <= k + 1 <= i < code.len() && #[trigger] uses_kept(h, code[i], 0, s) && calm(code, k + 1, i + 1);
                assert(calm(code, k, i + 1));
                assert(uses_kept(h, code[i], 0, s));
            }
        }
        if used_ahead(h, code, k, s) {
            let i = choose|i: int|
                0 <= k <= i < code.len() && #[trigger] uses_kept(h, code[i], 0, s) && calm(code, k, i + 1);
            assert(!safepoint_op(code[k]));
            if i > k {
                assert(calm(code, k + 1, i + 1));
                assert(used_ahead(h, code, k + 1, s));
            }
        }
    }
}

/// Whether an instruction uses or defines a register that is kept in a slot, and the slot's value is used
/// again: by a later use of the same instruction, or further on in the block before anything may move
/// objects.
pub open spec fn used_again(h: Homes, code: Seq<Ir>, k: int, s: u16) -> bool {
    ||| op_def(code[k]) is Some && kept_in(h, op_def(code[k])->Some_0, s) && used_ahead(h, code, k + 1, s)
    ||| exists|j: int|
        0 <= j < op_uses(code[k]).len() && kept_in(h, #[trigger] op_uses(code[k])[j], s) && (uses_kept(
            h,
            code[k],
            j + 1,
            s,
        ) || used_ahead(h, code, k + 1, s))
}

/// Mirroring pays at an instruction exactly if it touches a slot whose value is used again.
pub proof fn law_mirrored_slots_are_used_again(h: Homes, code: Seq<Ir>, k: int)
    requires
        0 <= k < code.len(),
    ensures
        pays(h, code, k) <==> exists|s: u16| #[trigger] used_again(h, code, k, s),
{
    if pays(h, code, k) {
        if exists|j: int| 0 <= j < op_uses(code[k]).len() && #[trigger] use_pays(h, code, k, j) {
            let j = choose|j: int| 0 <= j < op_uses(code[k]).len() && #[trigger] use_pays(h, code, k, j);
            let s = slot_of(h, op_uses(code[k])[j])->Some_0;
            lemma_read_ahead(h, code, k + 1, s);
            lemma_reads(h, code[k], j + 1, s);
            assert(kept_in(h, op_uses(code[k])[j], s));
            assert(used_again(h, code, k, s));
        } else {
            let v = op_def(code[k])->Some_0;
            let s = slot_of(h, v)->Some_0;
            lemma_read_ahead(h, code, k + 1, s);
            assert(kept_in(h, v, s));
            assert(used_again(h, code, k, s));
        }
    }
    if exists|s: u16| #[trigger] used_again(h, code, k, s) {
        let s = choose|s: u16| #[trigger] used_again(h, code, k, s);
        lemma_read_ahead(h, code, k + 1, s);
        if op_def(code[k]) is Some && kept_in(h, op_def(code[k])->Some_0, s) && used_ahead(h, code, k + 1, s) {
            assert(slot_of(h, op_def(code[k])->Some_0) == Some(s));
        } else {
            let j = choose|j: int|
                0 <= j < op_uses(code[k]).len() && kept_in(h, #[trigger] op_uses(code[k])[j], s) && (uses_kept(
                    h,
                    code[k],
                    j + 1,
                    s,
                ) || used_ahead(h, code, k + 1, s));
            lemma_reads(h, code[k], j + 1, s);
            assert(slot_of(h, op_uses(code[k])[j]) == Some(s));
            assert(use_pays(h, code, k, j));
        }
    }
}

// ── Positions and ways ──────────────────────────────────────────────────

/// A position belongs to the block whose start is the last at or before it.
pub proof fn law_positions_belong_to_blocks(starts: Seq<u32>, pos: u32, k: int)
    requires
        0 <= k < starts.len(),
        starts[0] <= pos,
    ensures
        0 <= order_index(starts, pos, k) <= k,
        starts[order_index(starts, pos, k)] <= pos,
        forall|i: int| order_index(starts, pos, k) < i <= k ==> pos < #[trigger] starts[i],
    decreases k,
{
    if k > 0 && starts[k] > pos {
        law_positions_belong_to_blocks(starts, pos, k - 1);
    }
}

/// Whether a block ends in a jump to another, or goes on with it.
pub open spec fn leads_to(blocks: Seq<IrBlock>, a: u32, b: u32) -> bool {
    &&& a < blocks.len()
    &&& exists|i: int|
        0 <= i < code_targets(blocks[a as int].code@).len() && (#[trigger] code_targets(blocks[a as int].code@)[i]).0 == b
}

/// A way through the blocks: each leads to the next.
pub open spec fn is_way(blocks: Seq<IrBlock>, way: Seq<u32>) -> bool {
    &&& way.len() > 0
    &&& forall|i: int| 0 < i < way.len() ==> leads_to(blocks, way[i - 1], #[trigger] way[i])
}

proof fn lemma_edges(targets: Seq<BlockId>, to: u32)
    ensures
        edges_to(targets, to) > 0 <==> exists|i: int| 0 <= i < targets.len() && (#[trigger] targets[i]).0 == to,
    decreases targets.len(),
{
    if targets.len() > 0 {
        let d = targets.drop_last();
        lemma_edges(d, to);
        if edges_to(targets, to) > 0 {
            if targets.last().0 == to {
                assert(targets[targets.len() - 1].0 == to);
            } else {
                let i = choose|i: int| 0 <= i < d.len() && (#[trigger] d[i]).0 == to;
                assert(targets[i].0 == to);
            }
        }
        if exists|i: int| 0 <= i < targets.len() && (#[trigger] targets[i]).0 == to {
            let i = choose|i: int| 0 <= i < targets.len() && (#[trigger] targets[i]).0 == to;
            if i < d.len() {
                assert(d[i].0 == to);
            }
        }
    }
}

proof fn lemma_preds(blocks: Seq<IrBlock>, to: u32, k: int, a: u32)
    requires
        0 <= k <= blocks.len() <= u32::MAX,
    ensures
        preds_of(blocks, to, k).contains(a) <==> a < k && leads_to(blocks, a, to),
    decreases k,
{
    if k > 0 {
        lemma_preds(blocks, to, k - 1, a);
        let before = preds_of(blocks, to, k - 1);
        let n = edges_to(code_targets(blocks[k - 1].code@), to);
        let more = repeat((k - 1) as u32, n);
        let all = preds_of(blocks, to, k);
        assert(all == before + more);
        lemma_edges(code_targets(blocks[k - 1].code@), to);
        if all.contains(a) {
            let i = choose|i: int| 0 <= i < all.len() && all[i] == a;
            if i < before.len() {
                assert(before[i] == a);
                assert(before.contains(a));
            } else {
                assert(more[i - before.len()] == a);
                assert(n > 0);
            }
        }
        if a < k && leads_to(blocks, a, to) {
            if a < k - 1 {
                let i = choose|i: int| 0 <= i < before.len() && before[i] == a;
                assert(all[i] == a);
            } else {
                assert(n > 0);
                assert(all[before.len() as int] == a);
            }
        }
    }
}

/// A block's predecessors are the blocks that lead to it.
pub proof fn law_predecessors_lead_to_their_block(blocks: Seq<IrBlock>, to: u32, a: u32)
    requires
        blocks.len() <= u32::MAX,
    ensures
        preds_of(blocks, to, blocks.len() as int).contains(a) <==> leads_to(blocks, a, to),
{
    lemma_preds(blocks, to, blocks.len() as int, a);
}

proof fn lemma_ways(t: SelectionInput, from: u32, to: u32, k: nat, way: Seq<u32>)
    requires
        t.blocks@.len() <= u32::MAX,
        chain(t, from, to, k),
        is_way(t.blocks@, way),
        way.last() == from,
        forall|a: u32| !leads_to(t.blocks@, a, way[0]),
    ensures
        way.contains(to),
    decreases k,
{
    let ps = preds_of(t.blocks@, from, t.blocks@.len() as int);
    let x = ps[0];
    assert(ps.contains(x));
    law_predecessors_lead_to_their_block(t.blocks@, from, x);
    assert(leads_to(t.blocks@, x, from));
    assert(way.len() > 1);
    let y = way[way.len() - 2];
    assert(leads_to(t.blocks@, y, way[way.len() - 1]));
    law_predecessors_lead_to_their_block(t.blocks@, from, y);
    let i = choose|i: int| 0 <= i < ps.len() && ps[i] == y;
    assert(y == x);
    if x == to {
        assert(way.contains(to));
    } else {
        let short = way.drop_last();
        assert(short.last() == x);
        assert forall|i: int| 0 < i < short.len() implies leads_to(t.blocks@, short[i - 1], #[trigger] short[i]) by {
            assert(leads_to(t.blocks@, way[i - 1], way[i]));
        }
        lemma_ways(t, x, to, (k - 1) as nat, short);
        let j = choose|j: int| 0 <= j < short.len() && short[j] == to;
        assert(way[j] == to);
    }
}

/// A definition that dominates an observation comes before it on every way in: the way passes the
/// definition's block, and in that block itself the definition stands first.
pub proof fn law_dominating_definitions_come_first(t: SelectionInput, def_pos: u32, obs: u32, way: Seq<u32>)
    requires
        t.blocks@.len() <= u32::MAX,
        dominates(t, def_pos, obs),
        is_way(t.blocks@, way),
        way.last() == block_of(t, obs),
        forall|a: u32| !leads_to(t.blocks@, a, way[0]),
    ensures
        way.contains(block_of(t, def_pos)),
        block_of(t, obs) == block_of(t, def_pos) ==> def_pos <= obs,
{
    let db = block_of(t, def_pos);
    let ob = block_of(t, obs);
    if ob == db {
        assert(way[way.len() - 1] == db);
    } else {
        lemma_ways(t, ob, db, 64, way);
    }
}

/// An authoritative register holds small integers of a spilled general register, no constant. Every place
/// that observes it finds it defined, if it is not defined in the first block, on every way in. Where it
/// is observed behind its range, no other register has taken its place.
pub proof fn law_authoritative_registers_hold_their_value(t: SelectionInput, iv: LiveInterval)
    requires
        t.blocks@.len() <= u32::MAX,
        authoritative(t, iv),
    ensures
        iv.resident_reg is Some,
        iv.assignment is Some && iv.assignment->Some_0 is Spill,
        !iv.is_fp,
        t.known_smi@[iv.vreg.0 as int],
        t.const_smi@[iv.vreg.0 as int] is None,
        t.const_pool@[iv.vreg.0 as int] is None,
        forall|i: int, way: Seq<u32>|
            t.block_order@.len() > 1 && iv.start >= t.block_start_pos@[1] && 0 <= i < t.safepoint_positions@.len() && iv.start
                <= t.safepoint_positions@[i] < iv.end && is_way(t.blocks@, way) && way.last() == block_of(
                t,
                #[trigger] t.safepoint_positions@[i],
            ) && (forall|a: u32| !leads_to(t.blocks@, a, way[0])) ==> #[trigger] way.contains(block_of(t, iv.start)),
        forall|i: int, way: Seq<u32>|
            t.block_order@.len() > 1 && iv.start >= t.block_start_pos@[1] && 0 <= i < t.extra_oop_live@.len()
                && t.extra_oop_live@[i].0 == iv.vreg && t.extra_oop_live@[i].1 >= iv.start && is_way(t.blocks@, way)
                && way.last() == block_of(t, (#[trigger] t.extra_oop_live@[i]).1) && (forall|a: u32|
                !leads_to(t.blocks@, a, way[0])) ==> #[trigger] way.contains(block_of(t, iv.start)),
        forall|i: int, j: int|
            0 <= i < t.extra_oop_live@.len() && 0 <= j < t.intervals@.len() && (#[trigger] t.extra_oop_live@[i]).0 == iv.vreg
                && t.extra_oop_live@[i].1 >= iv.end && t.extra_oop_live@[i].1 >= iv.start && (
            #[trigger] t.intervals@[j]).vreg != iv.vreg && t.intervals@[j].start <= t.extra_oop_live@[i].1
                < t.intervals@[j].end ==> t.intervals@[j].resident_reg != iv.resident_reg,
{
    assert forall|i: int, way: Seq<u32>|
        t.block_order@.len() > 1 && iv.start >= t.block_start_pos@[1] && 0 <= i < t.safepoint_positions@.len() && iv.start
            <= t.safepoint_positions@[i] < iv.end && is_way(t.blocks@, way) && way.last() == block_of(
            t,
            #[trigger] t.safepoint_positions@[i],
        ) && (forall|a: u32| !leads_to(t.blocks@, a, way[0])) implies #[trigger] way.contains(block_of(t, iv.start)) by {
        assert(dominates(t, iv.start, t.safepoint_positions@[i]));
        law_dominating_definitions_come_first(t, iv.start, t.safepoint_positions@[i], way);
    }
    assert forall|i: int, way: Seq<u32>|
        t.block_order@.len() > 1 && iv.start >= t.block_start_pos@[1] && 0 <= i < t.extra_oop_live@.len()
            && t.extra_oop_live@[i].0 == iv.vreg && t.extra_oop_live@[i].1 >= iv.start && is_way(t.blocks@, way)
            && way.last() == block_of(t, (#[trigger] t.extra_oop_live@[i]).1) && (forall|a: u32|
            !leads_to(t.blocks@, a, way[0])) implies #[trigger] way.contains(block_of(t, iv.start)) by {
        assert(dominates(t, iv.start, t.extra_oop_live@[i].1));
        law_dominating_definitions_come_first(t, iv.start, t.extra_oop_live@[i].1, way);
    }
    assert forall|i: int, j: int|
        0 <= i < t.extra_oop_live@.len() && 0 <= j < t.intervals@.len() && (#[trigger] t.extra_oop_live@[i]).0 == iv.vreg
            && t.extra_oop_live@[i].1 >= iv.end && t.extra_oop_live@[i].1 >= iv.start && (
        #[trigger] t.intervals@[j]).vreg != iv.vreg && t.intervals@[j].start <= t.extra_oop_live@[i].1
            < t.intervals@[j].end implies t.intervals@[j].resident_reg != iv.resident_reg by {
        if t.intervals@[j].resident_reg == iv.resident_reg {
            assert(contested(t, iv, t.extra_oop_live@[i].1));
            assert(demoted(t, iv));
        }
    }
}

/// A register of the first block that nothing observes behind its range is authoritative.
pub proof fn law_plain_registers_are_authoritative(t: SelectionInput, iv: LiveInterval)
    requires
        iv.resident_reg is Some,
        iv.assignment is Some && iv.assignment->Some_0 is Spill,
        !iv.is_fp,
        t.known_smi@[iv.vreg.0 as int],
        t.const_smi@[iv.vreg.0 as int] is None,
        t.const_pool@[iv.vreg.0 as int] is None,
        t.block_order@.len() > 1 ==> iv.start < t.block_start_pos@[1],
        iv.start < u32::MAX,
        forall|i: int|
            0 <= i < t.extra_oop_live@.len() && (#[trigger] t.extra_oop_live@[i]).0 == iv.vreg ==> t.extra_oop_live@[i].1 < iv.end,
    ensures
        authoritative(t, iv),
{
}

} // verus!
