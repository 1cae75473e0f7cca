//! What the emitter knows before it starts: operands proven to be small integers, positions where
//! mirroring a slot pays, and registers whose slots need not be written at every definition.
use vstd::prelude::*;
use crate::compiler::ir::{def_of, successors, BlockId, Ir, IrBlock, PoolEntry, VReg};
#[allow(unused_imports)]
use crate::compiler::ir::{code_targets, op_def, op_uses};

verus! {

// ── Positions ───────────────────────────────────────────────────────────

/// How many instructions stand before the `i`-th block of the order.
pub open spec fn ops_before(blocks: Seq<IrBlock>, order: Seq<BlockId>, i: int) -> nat
    decreases i,
{
    if i <= 0 {
        0
    } else {
        ops_before(blocks, order, i - 1) + blocks[order[i - 1].0 as int].code@.len()
    }
}

/// The registers an instruction names are registers of the method.
pub open spec fn regs_ok(op: Ir, n: nat) -> bool {
    &&& op_def(op) matches Some(v) ==> v.0 < n
    &&& forall|i: int| 0 <= i < op_uses(op).len() ==> (#[trigger] op_uses(op)[i]).0 < n
}

/// The pool constant an instruction names is one of the method's.
pub open spec fn pool_ok(op: Ir, n: nat) -> bool {
    op matches Ir::ConstPool { lit, .. } ==> lit.0 < n
}

/// The blocks are named by their index, the order names blocks, edges lead to blocks, and
/// instructions name registers and constants of the method.
pub open spec fn graph_ok(blocks: Seq<IrBlock>, order: Seq<BlockId>, n: nat, pool: nat) -> bool {
    &&& order.len() > 0
    &&& forall|i: int| 0 <= i < order.len() ==> (#[trigger] order[i]).0 < blocks.len()
    &&& forall|b: int, i: int|
        0 <= b < blocks.len() && 0 <= i < code_targets(blocks[b].code@).len() ==> (#[trigger] code_targets(
            blocks[b].code@,
        )[i]).0 < blocks.len()
    &&& forall|b: int, k: int|
        0 <= b < blocks.len() && 0 <= k < blocks[b].code@.len() ==> regs_ok(#[trigger] blocks[b].code@[k], n)
            && pool_ok(blocks[b].code@[k], pool)
}

// ── Operands proven to be small integers ────────────────────────────────

/// Sets a register's fact.
pub open spec fn put(f: Seq<bool>, v: VReg, b: bool) -> Seq<bool> {
    f.update(v.0 as int, b)
}

/// What is known after an instruction. A guard that passed proves its operands; a definition of a
/// small integer proves its destination; any other definition disproves it.
pub open spec fn step(f: Seq<bool>, op: Ir, pool: Seq<PoolEntry>) -> Seq<bool> {
    match op {
        Ir::SmiArith { dst, a, b, .. } => put(put(put(f, a, true), b, true), dst, true),
        Ir::SmiArithNoOv { dst, a, b, .. } => put(put(put(f, a, true), b, true), dst, true),
        Ir::SmiArithNoOvImm { dst, a, .. } => put(put(f, a, true), dst, true),
        Ir::SmiCmpBr { a, b, .. } => put(put(f, a, true), b, true),
        Ir::SmiCmpVal { dst, a, b, .. } => put(put(put(f, a, true), b, true), dst, false),
        Ir::ConstSmi { dst, .. } => put(f, dst, true),
        Ir::ConstPool { dst, lit } => put(f, dst, pool[lit.0 as int].value & 3 == 0),
        Ir::Move { dst, src } => put(f, dst, f[src.0 as int]),
        _ => match op_def(op) {
            Some(v) => put(f, v, false),
            None => f,
        },
    }
}

/// What is known after the first `k` instructions of a block.
pub open spec fn steps(f: Seq<bool>, code: Seq<Ir>, pool: Seq<PoolEntry>, k: int) -> Seq<bool>
    decreases k,
{
    if k <= 0 {
        f
    } else {
        step(steps(f, code, pool, k - 1), code[k - 1], pool)
    }
}

/// What is known after a block.
pub open spec fn transfer(f: Seq<bool>, b: IrBlock, pool: Seq<PoolEntry>) -> Seq<bool> {
    steps(f, b.code@, pool, b.code@.len() as int)
}

/// Every fact of `f` is one of `g`.
pub open spec fn within(f: Seq<bool>, g: Seq<bool>) -> bool {
    f.len() == g.len() && forall|i: int| 0 <= i < f.len() && #[trigger] f[i] ==> g[i]
}

/// No fact.
pub open spec fn no_facts(n: nat) -> Seq<bool> {
    Seq::new(n, |i: int| false)
}

/// The edge from a block to its `j`-th successor: what holds at the successor's entry holds after
/// the block. A block that is not reached carries no condition.
pub open spec fn edge_ok(
    ins: Seq<Option<Seq<bool>>>,
    blocks: Seq<IrBlock>,
    pool: Seq<PoolEntry>,
    b: int,
    j: int,
) -> bool {
    ins[b] matches Some(f) ==> (ins[code_targets(blocks[b].code@)[j].0 as int] matches Some(g) && within(
        g,
        transfer(f, blocks[b], pool),
    ))
}

/// Facts at block entries that every edge justifies; nothing is known at the entry.
pub open spec fn solution(
    ins: Seq<Option<Seq<bool>>>,
    blocks: Seq<IrBlock>,
    order: Seq<BlockId>,
    pool: Seq<PoolEntry>,
    n: nat,
) -> bool {
    &&& ins.len() == blocks.len()
    &&& forall|b: int| 0 <= b < ins.len() ==> (#[trigger] ins[b] matches Some(f) ==> f.len() == n)
    &&& ins[order[0].0 as int] == Some(no_facts(n))
    &&& forall|i: int, j: int|
        0 <= i < order.len() && 0 <= j < code_targets(blocks[order[i].0 as int].code@).len() ==> #[trigger] edge_ok(
            ins,
            blocks,
            pool,
            order[i].0 as int,
            j,
        )
}

/// `x` claims no more than `y`. Where `y` has not reached a block it claims everything there.
pub open spec fn below(x: Seq<Option<Seq<bool>>>, y: Seq<Option<Seq<bool>>>) -> bool {
    &&& x.len() == y.len()
    &&& forall|b: int|
        0 <= b < y.len() ==> (#[trigger] y[b] matches Some(g) ==> (x[b] matches Some(f) && within(f, g)))
}

/// The solution that claims most.
pub open spec fn greatest_solution(
    ins: Seq<Option<Seq<bool>>>,
    blocks: Seq<IrBlock>,
    order: Seq<BlockId>,
    pool: Seq<PoolEntry>,
    n: nat,
) -> bool {
    &&& solution(ins, blocks, order, pool, n)
    &&& forall|other: Seq<Option<Seq<bool>>>| #[trigger] solution(other, blocks, order, pool, n) ==> below(other, ins)
}

/// The facts at a block's entry; none where the block is not reached.
pub open spec fn entry_facts(ins: Seq<Option<Seq<bool>>>, b: int, n: nat) -> Seq<bool> {
    match ins[b] {
        Some(f) => f,
        None => no_facts(n),
    }
}

/// The guarded operands of an instruction that are known to be small integers.
pub open spec fn proven_operands(op: Ir, f: Seq<bool>) -> Seq<u32> {
    match guarded(op) {
        Some((a, b)) => (if f[a.0 as int] {
            seq![a.0]
        } else {
            Seq::empty()
        }) + (if f[b.0 as int] {
            seq![b.0]
        } else {
            Seq::empty()
        }),
        None => Seq::empty(),
    }
}

/// The operands that an instruction tests for small integers.
pub open spec fn guarded(op: Ir) -> Option<(VReg, VReg)> {
    match op {
        Ir::SmiArith { a, b, .. } => Some((a, b)),
        Ir::SmiCmpBr { a, b, .. } => Some((a, b)),
        Ir::SmiCmpVal { a, b, .. } => Some((a, b)),
        _ => None,
    }
}

/// What is recorded per position follows from the facts at block entries.
pub open spec fn recorded(
    out: Seq<Vec<u32>>,
    ins: Seq<Option<Seq<bool>>>,
    blocks: Seq<IrBlock>,
    order: Seq<BlockId>,
    pool: Seq<PoolEntry>,
    n: nat,
    upto: int,
) -> bool {
    forall|i: int, k: int|
        #![trigger blocks[order[i].0 as int].code@[k]]
        0 <= i < upto && 0 <= k < blocks[order[i].0 as int].code@.len() ==> {
            let b = order[i].0 as int;
            out[ops_before(blocks, order, i) + k]@ == proven_operands(
                blocks[b].code@[k],
                steps(entry_facts(ins, b, n), blocks[b].code@, pool, k),
            )
        }
}

/// The recorded operands are those that the greatest solution proves.
pub open spec fn proven_result(
    out: Seq<Vec<u32>>,
    blocks: Seq<IrBlock>,
    order: Seq<BlockId>,
    pool: Seq<PoolEntry>,
    n: nat,
) -> bool {
    &&& out.len() == ops_before(blocks, order, order.len() as int)
    &&& exists|ins: Seq<Option<Seq<bool>>>| #[trigger] greatest_solution(ins, blocks, order, pool, n) && recorded(
        out,
        ins,
        blocks,
        order,
        pool,
        n,
        order.len() as int,
    )
}

proof fn lemma_uses_in_range(op: Ir, n: nat)
    requires
        regs_ok(op, n),
    ensures
        guarded(op) matches Some((a, b)) ==> a.0 < n && b.0 < n,
        op matches Ir::SmiArithNoOv { a, b, .. } ==> a.0 < n && b.0 < n,
        op matches Ir::SmiArithNoOvImm { a, .. } ==> a.0 < n,
        op matches Ir::Move { src, .. } ==> src.0 < n,
{
    if op_uses(op).len() > 0 {
        assert(op_uses(op)[0].0 < n);
    }
    if op_uses(op).len() > 1 {
        assert(op_uses(op)[1].0 < n);
    }
}

proof fn lemma_steps_len(f: Seq<bool>, code: Seq<Ir>, pool: Seq<PoolEntry>, k: int)
    requires
        0 <= k <= code.len(),
        forall|i: int| 0 <= i < code.len() ==> regs_ok(#[trigger] code[i], f.len()),
    ensures
        steps(f, code, pool, k).len() == f.len(),
    decreases k,
{
    if k > 0 {
        lemma_steps_len(f, code, pool, k - 1);
        lemma_uses_in_range(code[k - 1], f.len());
    }
}

proof fn lemma_step_monotone(f: Seq<bool>, g: Seq<bool>, op: Ir, pool: Seq<PoolEntry>)
    requires
        within(f, g),
        regs_ok(op, f.len()),
    ensures
        within(step(f, op, pool), step(g, op, pool)),
{
    lemma_uses_in_range(op, f.len());
}

proof fn lemma_steps_monotone(f: Seq<bool>, g: Seq<bool>, code: Seq<Ir>, pool: Seq<PoolEntry>, k: int)
    requires
        within(f, g),
        0 <= k <= code.len(),
        forall|i: int| 0 <= i < code.len() ==> regs_ok(#[trigger] code[i], f.len()),
    ensures
        within(steps(f, code, pool, k), steps(g, code, pool, k)),
    decreases k,
{
    if k > 0 {
        lemma_steps_monotone(f, g, code, pool, k - 1);
        lemma_steps_len(f, code, pool, k - 1);
        lemma_step_monotone(steps(f, code, pool, k - 1), steps(g, code, pool, k - 1), code[k - 1], pool);
    }
}

/// One instruction's effect on the facts.
fn apply(cur: &mut Vec<bool>, op: &Ir, pool: &Vec<PoolEntry>)
    requires
        regs_ok(*op, old(cur)@.len()),
        pool_ok(*op, pool@.len()),
    ensures
        final(cur)@ == step(old(cur)@, *op, pool@),
        final(cur)@.len() == old(cur)@.len(),
{
    proof {
        lemma_uses_in_range(*op, cur@.len());
    }
    match op {
        Ir::SmiArith { dst, a, b, .. } => {
            cur.set(a.0 as usize, true);
            cur.set(b.0 as usize, true);
            cur.set(dst.0 as usize, true);
        },
        Ir::SmiArithNoOv { dst, a, b, .. } => {
            cur.set(a.0 as usize, true);
            cur.set(b.0 as usize, true);
            cur.set(dst.0 as usize, true);
        },
        Ir::SmiArithNoOvImm { dst, a, .. } => {
            cur.set(a.0 as usize, true);
            cur.set(dst.0 as usize, true);
        },
        Ir::SmiCmpBr { a, b, .. } => {
            cur.set(a.0 as usize, true);
            cur.set(b.0 as usize, true);
        },
        Ir::SmiCmpVal { dst, a, b, .. } => {
            cur.set(a.0 as usize, true);
            cur.set(b.0 as usize, true);
            cur.set(dst.0 as usize, false);
        },
        Ir::ConstSmi { dst, .. } => {
            cur.set(dst.0 as usize, true);
        },
        Ir::ConstPool { dst, lit } => {
            let smi: bool = pool[lit.0 as usize].value & 3 == 0;
            cur.set(dst.0 as usize, smi);
        },
        Ir::Move { dst, src } => {
            let known: bool = cur[src.0 as usize];
            cur.set(dst.0 as usize, known);
        },
        _ => match def_of(op) {
            Some(v) => {
                cur.set(v.0 as usize, false);
            },
            None => {},
        },
    }
}

fn falses(n: usize) -> (r: Vec<bool>)
    ensures
        r@ == no_facts(n as nat),
{
    let mut r: Vec<bool> = Vec::new();
    let mut i: usize = 0;
    while i < n
        invariant
            i <= n,
            r@.len() == i,
            forall|k: int| 0 <= k < i ==> !#[trigger] r@[k],
        decreases n - i,
    {
        r.push(false);
        i += 1;
    }
    assert(r@ =~= no_facts(n as nat));
    r
}

/// Facts that both sides have.
pub open spec fn meet(f: Seq<bool>, g: Seq<bool>) -> Seq<bool> {
    Seq::new(f.len(), |i: int| f[i] && g[i])
}

/// How many facts there are.
spec fn count(f: Seq<bool>) -> nat
    decreases f.len(),
{
    if f.len() == 0 {
        0
    } else {
        count(f.drop_last()) + (if f.last() {
            1nat
        } else {
            0nat
        })
    }
}

proof fn lemma_count_meet(f: Seq<bool>, g: Seq<bool>)
    requires
        f.len() == g.len(),
    ensures
        count(meet(f, g)) <= count(f) <= f.len(),
        meet(f, g) != f ==> count(meet(f, g)) < count(f),
    decreases f.len(),
{
    if f.len() > 0 {
        lemma_count_meet(f.drop_last(), g.drop_last());
        assert(meet(f, g).drop_last() =~= meet(f.drop_last(), g.drop_last()));
        if meet(f.drop_last(), g.drop_last()) == f.drop_last() && meet(f, g).last() == f.last() {
            assert(meet(f, g) =~= f) by {
                assert forall|i: int| 0 <= i < f.len() implies meet(f, g)[i] == f[i] by {
                    if i < f.len() - 1 {
                        assert(meet(f.drop_last(), g.drop_last())[i] == f.drop_last()[i]);
                    }
                }
            }
        }
    } else {
        assert(meet(f, g) =~= f);
    }
}

/// How far a block's facts can still shrink.
spec fn weight(o: Option<Vec<bool>>, n: nat) -> nat {
    match o {
        Some(f) => count(f@),
        None => n + 1,
    }
}

spec fn total(ins: Seq<Option<Vec<bool>>>, n: nat) -> nat
    decreases ins.len(),
{
    if ins.len() == 0 {
        0
    } else {
        total(ins.drop_last(), n) + weight(ins.last(), n)
    }
}

proof fn lemma_total_update(ins: Seq<Option<Vec<bool>>>, i: int, o: Option<Vec<bool>>, n: nat)
    requires
        0 <= i < ins.len(),
    ensures
        total(ins.update(i, o), n) == total(ins, n) - weight(ins[i], n) + weight(o, n),
    decreases ins.len(),
{
    if i == ins.len() - 1 {
        assert(ins.update(i, o).drop_last() =~= ins.drop_last());
    } else {
        assert(ins.update(i, o).drop_last() =~= ins.drop_last().update(i, o));
        lemma_total_update(ins.drop_last(), i, o, n);
    }
}

/// The facts as the contracts see them.
spec fn ins_view(ins: Seq<Option<Vec<bool>>>) -> Seq<Option<Seq<bool>>> {
    Seq::new(
        ins.len(),
        |b: int|
            match ins[b] {
                Some(f) => Some(f@),
                None => None,
            },
    )
}

/// What holds of the facts while they shrink: they have the method's size and lie above every
/// solution.
spec fn above_all(
    ins: Seq<Option<Vec<bool>>>,
    blocks: Seq<IrBlock>,
    order: Seq<BlockId>,
    pool: Seq<PoolEntry>,
    n: nat,
) -> bool {
    &&& ins.len() == blocks.len()
    &&& forall|b: int| 0 <= b < ins.len() ==> (#[trigger] ins[b] matches Some(f) ==> f@.len() == n)
    &&& ins[order[0].0 as int] matches Some(f) && f@ == no_facts(n)
    &&& forall|other: Seq<Option<Seq<bool>>>|
        #[trigger] solution(other, blocks, order, pool, n) ==> below(other, ins_view(ins))
}

/// Narrows a successor's facts to those that also hold after the block. Answers whether anything
/// changed.
fn narrow(
    ins: &mut Vec<Option<Vec<bool>>>,
    su: usize,
    cur: &Vec<bool>,
    Ghost(blocks): Ghost<Seq<IrBlock>>,
    Ghost(order): Ghost<Seq<BlockId>>,
    Ghost(pool): Ghost<Seq<PoolEntry>>,
    Ghost(at): Ghost<int>,
    Ghost(j): Ghost<int>,
    Ghost(f): Ghost<Seq<bool>>,
) -> (changed: bool)
    requires
        above_all(old(ins)@, blocks, order, pool, cur@.len()),
        graph_ok(blocks, order, cur@.len(), pool.len()),
        0 <= at < order.len(),
        0 <= j < code_targets(blocks[order[at].0 as int].code@).len(),
        su == code_targets(blocks[order[at].0 as int].code@)[j].0,
        f.len() == cur@.len(),
        cur@ == transfer(f, blocks[order[at].0 as int], pool),
        forall|other: Seq<Option<Seq<bool>>>|
            #[trigger] solution(other, blocks, order, pool, cur@.len()) ==> (other[order[at].0 as int] matches Some(
                g,
            ) && within(g, f)),
    ensures
        above_all(final(ins)@, blocks, order, pool, cur@.len()),
        changed ==> total(final(ins)@, cur@.len()) < total(old(ins)@, cur@.len()),
        !changed ==> final(ins)@ == old(ins)@ && (final(ins)@[su as int] matches Some(g) && within(g@, cur@)),
{
    let n: usize = cur.len();
    let ghost b = order[at].0 as int;
    proof {
        assert(code_targets(blocks[b].code@)[j].0 < blocks.len());
    }
    let mut fresh: Vec<bool> = Vec::new();
    let mut same: bool = true;
    match &ins[su] {
        Some(prev) => {
            let mut i: usize = 0;
            while i < n
                invariant
                    i <= n,
                    n == cur@.len(),
                    prev@.len() == n,
                    fresh@.len() == i,
                    forall|k: int| 0 <= k < i ==> #[trigger] fresh@[k] == (prev@[k] && cur@[k]),
                    same == (forall|k: int| 0 <= k < i ==> (#[trigger] prev@[k] ==> cur@[k])),
                decreases n - i,
            {
                if prev[i] && !cur[i] {
                    same = false;
                }
                fresh.push(prev[i] && cur[i]);
                i += 1;
            }
            proof {
                assert(fresh@ =~= meet(prev@, cur@));
                lemma_count_meet(prev@, cur@);
                if !same {
                    let k = choose|k: int| 0 <= k < n && #[trigger] prev@[k] && !cur@[k];
                    assert(meet(prev@, cur@)[k] != prev@[k]);
                }
            }
            if same {
                return false;
            }
        },
        None => {
            let mut i: usize = 0;
            while i < n
                invariant
                    i <= n,
                    n == cur@.len(),
                    fresh@.len() == i,
                    forall|k: int| 0 <= k < i ==> #[trigger] fresh@[k] == cur@[k],
                decreases n - i,
            {
                fresh.push(cur[i]);
                i += 1;
            }
            proof {
                assert(fresh@ =~= cur@);
                lemma_count_meet(cur@, cur@);
            }
        },
    }
    let ghost before = ins@;
    let ghost fv = fresh@;
    ins.set(su, Some(fresh));
    proof {
        lemma_total_update(before, su as int, ins@[su as int], n as nat);
        let view = ins_view(ins@);
        assert forall|other: Seq<Option<Seq<bool>>>| #[trigger]
            solution(other, blocks, order, pool, n as nat) implies below(other, view) by {
            assert(below(other, ins_view(before)));
            assert(edge_ok(other, blocks, pool, b, j));
            let x = other[b]->0;
            lemma_steps_monotone(x, f, blocks[b].code@, pool, blocks[b].code@.len() as int);
            assert(within(transfer(x, blocks[b], pool), cur@));
            let y = other[su as int]->0;
            assert(within(y, cur@)) by {
                assert forall|i: int| 0 <= i < y.len() && #[trigger] y[i] implies cur@[i] by {
                    assert(transfer(x, blocks[b], pool)[i]);
                }
            }
            assert forall|c: int| 0 <= c < view.len() implies (#[trigger] view[c] matches Some(g) ==> (
            other[c] matches Some(h) && within(h, g))) by {
                if c == su {
                    assert(view[c] == Some(fv));
                    assert(within(y, fv)) by {
                        if before[su as int] is Some {
                            assert(ins_view(before)[su as int] == Some(before[su as int]->0@));
                        }
                    }
                } else {
                    assert(view[c] == ins_view(before)[c]);
                }
            }
        }
        if su == order[0].0 {
            assert(fv =~= no_facts(n as nat));
        }
    }
    true
}

/// Proves operands to be small integers: per position the guarded operands that are one on every
/// path there.
pub fn proven_smi_positions(
    blocks: &Vec<IrBlock>,
    order: &Vec<BlockId>,
    pool: &Vec<PoolEntry>,
    n: usize,
) -> (out: Vec<Vec<u32>>)
    requires
        graph_ok(blocks@, order@, n as nat, pool@.len()),
    ensures
        proven_result(out@, blocks@, order@, pool@, n as nat),
{
    let ins: Vec<Option<Vec<bool>>> = smi_facts(blocks, order, pool, n);
    let mut out: Vec<Vec<u32>> = Vec::new();
    let mut i: usize = 0;
    while i < order.len()
        invariant
            i <= order@.len(),
            graph_ok(blocks@, order@, n as nat, pool@.len()),
            ins@.len() == blocks@.len(),
            greatest_solution(ins_view(ins@), blocks@, order@, pool@, n as nat),
            out@.len() == ops_before(blocks@, order@, i as int),
            recorded(out@, ins_view(ins@), blocks@, order@, pool@, n as nat, i as int),
        decreases order@.len() - i,
    {
        let b: usize = order[i].0 as usize;
        let code: &Vec<Ir> = &blocks[b].code;
        proof {
            assert(order@[i as int].0 < blocks@.len());
        }
        let mut cur: Vec<bool> = match &ins[b] {
            Some(f) => f.clone(),
            None => falses(n),
        };
        let ghost f0 = cur@;
        let ghost before = out@;
        proof {
            assert(ins_view(ins@)[b as int] matches Some(f) ==> f.len() == n);
            assert(f0 == entry_facts(ins_view(ins@), b as int, n as nat));
        }
        let mut k: usize = 0;
        while k < code.len()
            invariant
                k <= code@.len(),
                code@ == blocks@[b as int].code@,
                0 <= b < blocks@.len(),
                graph_ok(blocks@, order@, n as nat, pool@.len()),
                cur@.len() == n,
                f0.len() == n,
                cur@ == steps(f0, code@, pool@, k as int),
                out@.len() == before.len() + k,
                forall|q: int| 0 <= q < before.len() ==> #[trigger] out@[q] == before[q],
                forall|q: int|
                    0 <= q < k ==> (#[trigger] out@[before.len() + q])@ == proven_operands(
                        code@[q],
                        steps(f0, code@, pool@, q),
                    ),
            decreases code@.len() - k,
        {
            let op: &Ir = &code[k];
            proof {
                assert(regs_ok(blocks@[b as int].code@[k as int], n as nat));
                lemma_uses_in_range(*op, n as nat);
            }
            let row: Vec<u32> = proven_row(op, &cur);
            out.push(row);
            apply(&mut cur, op, pool);
            k += 1;
        }
        proof {
            assert forall|i2: int, k2: int|
                #![trigger blocks@[order@[i2].0 as int].code@[k2]]
                0 <= i2 < i + 1 && 0 <= k2 < blocks@[order@[i2].0 as int].code@.len() implies {
                let b2 = order@[i2].0 as int;
                out@[ops_before(blocks@, order@, i2) + k2]@ == proven_operands(
                    blocks@[b2].code@[k2],
                    steps(entry_facts(ins_view(ins@), b2, n as nat), blocks@[b2].code@, pool@, k2),
                )
            } by {
                if i2 < i {
                    lemma_ops_before_monotone(blocks@, order@, i2 + 1, i as int);
                    assert(ops_before(blocks@, order@, i2) + k2 < before.len());
                } else {
                    assert(out@[before.len() + k2]@ == proven_operands(code@[k2], steps(f0, code@, pool@, k2)));
                }
            }
        }
        i += 1;
    }
    out
}

pub(crate) proof fn lemma_ops_before_monotone(blocks: Seq<IrBlock>, order: Seq<BlockId>, a: int, b: int)
    requires
        0 <= a <= b,
    ensures
        ops_before(blocks, order, a) <= ops_before(blocks, order, b),
    decreases b - a,
{
    if a < b {
        lemma_ops_before_monotone(blocks, order, a, b - 1);
    }
}

fn proven_row(op: &Ir, cur: &Vec<bool>) -> (row: Vec<u32>)
    requires
        guarded(*op) matches Some((a, b)) ==> a.0 < cur@.len() && b.0 < cur@.len(),
    ensures
        row@ == proven_operands(*op, cur@),
{
    let mut row: Vec<u32> = Vec::new();
    let pair: Option<(VReg, VReg)> = match op {
        Ir::SmiArith { a, b, .. } => Some((*a, *b)),
        Ir::SmiCmpBr { a, b, .. } => Some((*a, *b)),
        Ir::SmiCmpVal { a, b, .. } => Some((*a, *b)),
        _ => None,
    };
    match pair {
        Some((a, b)) => {
            if cur[a.0 as usize] {
                row.push(a.0);
            }
            if cur[b.0 as usize] {
                row.push(b.0);
            }
        },
        None => {},
    }
    assert(row@ =~= proven_operands(*op, cur@));
    row
}

/// The facts at block entries, by iteration from above until nothing changes.
fn smi_facts(blocks: &Vec<IrBlock>, order: &Vec<BlockId>, pool: &Vec<PoolEntry>, n: usize) -> (ins: Vec<
    Option<Vec<bool>>,
>)
    requires
        graph_ok(blocks@, order@, n as nat, pool@.len()),
    ensures
        ins@.len() == blocks@.len(),
        greatest_solution(ins_view(ins@), blocks@, order@, pool@, n as nat),
{
    let entry: usize = order[0].0 as usize;
    let mut ins: Vec<Option<Vec<bool>>> = Vec::new();
    let mut b: usize = 0;
    while b < blocks.len()
        invariant
            b <= blocks@.len(),
            ins@.len() == b,
            forall|c: int|
                0 <= c < b ==> (if c == entry {
                    #[trigger] ins@[c] matches Some(f) && f@ == no_facts(n as nat)
                } else {
                    ins@[c] is None
                }),
        decreases blocks@.len() - b,
    {
        if b == entry {
            ins.push(Some(falses(n)));
        } else {
            ins.push(None);
        }
        b += 1;
    }
    proof {
        assert(order@[0].0 < blocks@.len());
        assert forall|other: Seq<Option<Seq<bool>>>| #[trigger]
            solution(other, blocks@, order@, pool@, n as nat) implies below(other, ins_view(ins@)) by {
            assert(other[entry as int] == Some(no_facts(n as nat)));
        }
    }
    loop
        invariant_except_break
            graph_ok(blocks@, order@, n as nat, pool@.len()),
            above_all(ins@, blocks@, order@, pool@, n as nat),
        ensures
            above_all(ins@, blocks@, order@, pool@, n as nat),
            greatest_solution(ins_view(ins@), blocks@, order@, pool@, n as nat),
        decreases total(ins@, n as nat),
    {
        let ghost start = ins@;
        let mut changed: bool = false;
        let mut i: usize = 0;
        while i < order.len()
            invariant
                i <= order@.len(),
                graph_ok(blocks@, order@, n as nat, pool@.len()),
                above_all(ins@, blocks@, order@, pool@, n as nat),
                changed ==> total(ins@, n as nat) < total(start, n as nat),
                !changed ==> ins@ == start,
                !changed ==> forall|i2: int, j2: int|
                    0 <= i2 < i && 0 <= j2 < code_targets(blocks@[order@[i2].0 as int].code@).len()
                        ==> #[trigger] edge_ok(ins_view(ins@), blocks@, pool@, order@[i2].0 as int, j2),
            decreases order@.len() - i,
        {
            proof {
                assert(order@[i as int].0 < blocks@.len());
            }
            let at: usize = order[i].0 as usize;
            let here: Option<Vec<bool>> = match &ins[at] {
                Some(f) => Some(f.clone()),
                None => None,
            };
            match here {
                Some(f) => {
                    let ghost f0 = f@;
                    let ghost mid = ins@;
                    proof {
                        assert forall|other: Seq<Option<Seq<bool>>>| #[trigger]
                            solution(other, blocks@, order@, pool@, n as nat) implies (
                        other[at as int] matches Some(g) && within(g, f0)) by {
                            assert(below(other, ins_view(ins@)));
                            assert(ins_view(ins@)[at as int] == Some(f0));
                        }
                    }
                    let mut cur: Vec<bool> = f;
                    run_block(&mut cur, &blocks[at].code, pool);
                    let succ: Vec<BlockId> = successors(&blocks[at]);
                    let mut j: usize = 0;
                    let mut here_changed: bool = false;
                    while j < succ.len()
                        invariant
                            j <= succ@.len(),
                            i < order@.len(),
                            at == order@[i as int].0,
                            succ@ == code_targets(blocks@[at as int].code@),
                            graph_ok(blocks@, order@, n as nat, pool@.len()),
                            cur@.len() == n,
                            f0.len() == n,
                            cur@ == transfer(f0, blocks@[at as int], pool@),
                            above_all(ins@, blocks@, order@, pool@, n as nat),
                            forall|other: Seq<Option<Seq<bool>>>| #[trigger]
                                solution(other, blocks@, order@, pool@, n as nat) ==> (other[at as int] matches Some(
                                    g,
                                ) && within(g, f0)),
                            here_changed ==> total(ins@, n as nat) < total(mid, n as nat),
                            !here_changed ==> ins@ == mid,
                            !here_changed ==> forall|j2: int|
                                0 <= j2 < j ==> (ins@[(#[trigger] succ@[j2]).0 as int] matches Some(g) && within(
                                    g@,
                                    cur@,
                                )),
                        decreases succ@.len() - j,
                    {
                        proof {
                            assert(code_targets(blocks@[at as int].code@)[j as int].0 < blocks@.len());
                        }
                        let su: usize = succ[j].0 as usize;
                        let c: bool = narrow(
                            &mut ins,
                            su,
                            &cur,
                            Ghost(blocks@),
                            Ghost(order@),
                            Ghost(pool@),
                            Ghost(i as int),
                            Ghost(j as int),
                            Ghost(f0),
                        );
                        if c {
                            here_changed = true;
                        }
                        j += 1;
                    }
                    if here_changed {
                        changed = true;
                    }
                    proof {
                        if !changed {
                            assert forall|i2: int, j2: int|
                                0 <= i2 < i + 1 && 0 <= j2 < code_targets(
                                    blocks@[order@[i2].0 as int].code@,
                                ).len() implies #[trigger] edge_ok(
                                ins_view(ins@),
                                blocks@,
                                pool@,
                                order@[i2].0 as int,
                                j2,
                            ) by {
                                if i2 == i {
                                    let t = succ@[j2].0 as int;
                                    assert(code_targets(blocks@[at as int].code@)[j2].0 < blocks@.len());
                                    assert(ins_view(ins@)[t] == Some(ins@[t]->0@));
                                    assert(ins_view(ins@)[at as int] == Some(f0));
                                }
                            }
                        }
                    }
                },
                None => {
                    proof {
                        if !changed {
                            assert(ins_view(ins@)[at as int] is None);
                        }
                    }
                },
            }
            i += 1;
        }
        if !changed {
            proof {
                let v = ins_view(ins@);
                assert(v[order@[0].0 as int] == Some(no_facts(n as nat)));
                assert forall|b: int| 0 <= b < v.len() implies (#[trigger] v[b] matches Some(f) ==> f.len() == n) by {
                    assert(ins@[b] matches Some(f) ==> f@.len() == n);
                }
                assert(solution(v, blocks@, order@, pool@, n as nat));
            }
            break;
        }
    }
    ins
}

fn run_block(cur: &mut Vec<bool>, code: &Vec<Ir>, pool: &Vec<PoolEntry>)
    requires
        forall|k: int|
            0 <= k < code@.len() ==> regs_ok(#[trigger] code@[k], old(cur)@.len()) && pool_ok(code@[k], pool@.len()),
    ensures
        final(cur)@ == steps(old(cur)@, code@, pool@, code@.len() as int),
        final(cur)@.len() == old(cur)@.len(),
{
    let mut k: usize = 0;
    while k < code.len()
        invariant
            k <= code@.len(),
            cur@.len() == old(cur)@.len(),
            cur@ == steps(old(cur)@, code@, pool@, k as int),
            forall|q: int|
                0 <= q < code@.len() ==> regs_ok(#[trigger] code@[q], old(cur)@.len()) && pool_ok(
                    code@[q],
                    pool@.len(),
                ),
        decreases code@.len() - k,
    {
        apply(cur, &code[k], pool);
        k += 1;
    }
}

/// A path through the method: indices into the order, each block followed by a successor.
pub open spec fn is_path(path: Seq<int>, blocks: Seq<IrBlock>, order: Seq<BlockId>) -> bool {
    &&& path.len() > 0
    &&& path[0] == 0
    &&& forall|i: int| 0 <= i < path.len() ==> 0 <= #[trigger] path[i] < order.len()
    &&& forall|i: int|
        0 <= i < path.len() - 1 ==> code_targets(blocks[order[#[trigger] path[i]].0 as int].code@).contains(
            order[path[i + 1]],
        )
}

/// What a walk along the path's first `k` blocks knows, starting from nothing.
pub open spec fn walk(
    path: Seq<int>,
    blocks: Seq<IrBlock>,
    order: Seq<BlockId>,
    pool: Seq<PoolEntry>,
    n: nat,
    k: int,
) -> Seq<bool>
    decreases k,
{
    if k <= 0 {
        no_facts(n)
    } else {
        transfer(walk(path, blocks, order, pool, n, k - 1), blocks[order[path[k - 1]].0 as int], pool)
    }
}

proof fn lemma_solution_on_path(
    ins: Seq<Option<Seq<bool>>>,
    path: Seq<int>,
    blocks: Seq<IrBlock>,
    order: Seq<BlockId>,
    pool: Seq<PoolEntry>,
    n: nat,
    k: int,
)
    requires
        graph_ok(blocks, order, n, pool.len()),
        solution(ins, blocks, order, pool, n),
        is_path(path, blocks, order),
        0 <= k < path.len(),
    ensures
        ins[order[path[k]].0 as int] matches Some(f) && within(f, walk(path, blocks, order, pool, n, k)),
    decreases k,
{
    if k > 0 {
        lemma_solution_on_path(ins, path, blocks, order, pool, n, k - 1);
        let b = order[path[k - 1]].0 as int;
        let t = code_targets(blocks[b].code@);
        assert(t.contains(order[path[k]]));
        let j = choose|j: int| 0 <= j < t.len() && t[j] == order[path[k]];
        assert(edge_ok(ins, blocks, pool, order[path[k - 1]].0 as int, j));
        let f = ins[b]->0;
        let w = walk(path, blocks, order, pool, n, k - 1);
        assert(order[path[k - 1]].0 < blocks.len());
        lemma_steps_monotone(f, w, blocks[b].code@, pool, blocks[b].code@.len() as int);
        let g = ins[order[path[k]].0 as int]->0;
        assert(within(g, transfer(f, blocks[b], pool)));
        assert(within(g, transfer(w, blocks[b], pool))) by {
            assert forall|i: int| 0 <= i < g.len() && #[trigger] g[i] implies transfer(w, blocks[b], pool)[i] by {
                assert(transfer(f, blocks[b], pool)[i]);
            }
        }
    }
}

/// An operand recorded at a position is proven on every path that reaches it: walking any path
/// from the entry to the block, and on to the instruction, establishes the fact.
pub proof fn law_proven_on_every_path(
    out: Seq<Vec<u32>>,
    blocks: Seq<IrBlock>,
    order: Seq<BlockId>,
    pool: Seq<PoolEntry>,
    n: nat,
    path: Seq<int>,
    k: int,
    v: u32,
)
    requires
        graph_ok(blocks, order, n, pool.len()),
        proven_result(out, blocks, order, pool, n),
        is_path(path, blocks, order),
        0 <= k < blocks[order[path.last()].0 as int].code@.len(),
        out[ops_before(blocks, order, path.last()) + k]@.contains(v),
    ensures
        v < n,
        steps(
            walk(path, blocks, order, pool, n, path.len() - 1),
            blocks[order[path.last()].0 as int].code@,
            pool,
            k,
        )[v as int],
{
    let ins = choose|ins: Seq<Option<Seq<bool>>>| #[trigger]
        greatest_solution(ins, blocks, order, pool, n) && recorded(
            out,
            ins,
            blocks,
            order,
            pool,
            n,
            order.len() as int,
        );
    let last = path.last();
    let b = order[last].0 as int;
    assert(0 <= path[path.len() - 1] < order.len());
    assert(order[last].0 < blocks.len());
    lemma_solution_on_path(ins, path, blocks, order, pool, n, path.len() - 1);
    let f = ins[b]->0;
    let w = walk(path, blocks, order, pool, n, path.len() - 1);
    lemma_steps_monotone(f, w, blocks[b].code@, pool, k);
    let op = blocks[b].code@[k];
    lemma_uses_in_range(op, n);
    assert(out[ops_before(blocks, order, last) + k]@ == proven_operands(op, steps(f, blocks[b].code@, pool, k)));
    let row = proven_operands(op, steps(f, blocks[b].code@, pool, k));
    let i = choose|i: int| 0 <= i < row.len() && row[i] == v;
    lemma_steps_len(f, blocks[b].code@, pool, k);
    assert(steps(f, blocks[b].code@, pool, k)[v as int]);
}

// ── What the facts mean ─────────────────────────────────────────────────

/// Whether the registers that are said to hold small integers do.
pub open spec fn facts_hold(f: Seq<bool>, words: Seq<u64>) -> bool {
    f.len() == words.len() && forall|i: int| 0 <= i < f.len() && #[trigger] f[i] ==> words[i] & 3 == 0
}

/// What an instruction that went on, without failing, has done to the registers: it changed at most its
/// destination. Arithmetic and comparisons of small integers went on with such operands only, and
/// arithmetic leaves one; a constant and a move leave what they say; of any other nothing is known.
pub open spec fn went_on(op: Ir, pool: Seq<PoolEntry>, before: Seq<u64>, after: Seq<u64>) -> bool {
    &&& after.len() == before.len()
    &&& forall|i: int| 0 <= i < before.len() && op_def(op) != Some(VReg(i as u32)) ==> #[trigger] after[i] == before[i]
    &&& match op {
        Ir::SmiArith { dst, a, b, .. } => before[a.0 as int] & 3 == 0 && before[b.0 as int] & 3 == 0 && after[dst.0 as int]
            & 3 == 0,
        Ir::SmiArithNoOv { dst, a, b, .. } => before[a.0 as int] & 3 == 0 && before[b.0 as int] & 3 == 0
            && after[dst.0 as int] & 3 == 0,
        Ir::SmiArithNoOvImm { dst, a, .. } => before[a.0 as int] & 3 == 0 && after[dst.0 as int] & 3 == 0,
        Ir::SmiCmpBr { a, b, .. } => before[a.0 as int] & 3 == 0 && before[b.0 as int] & 3 == 0,
        Ir::SmiCmpVal { a, b, .. } => before[a.0 as int] & 3 == 0 && before[b.0 as int] & 3 == 0,
        Ir::ConstSmi { dst, .. } => after[dst.0 as int] & 3 == 0,
        Ir::ConstPool { dst, lit } => after[dst.0 as int] == pool[lit.0 as int].value,
        Ir::Move { dst, src } => after[dst.0 as int] == before[src.0 as int],
        _ => true,
    }
}

/// What is known stays true: if the facts hold before an instruction, those that are known after it hold
/// after it, whatever it did.
pub proof fn law_facts_stay_true(f: Seq<bool>, op: Ir, pool: Seq<PoolEntry>, before: Seq<u64>, after: Seq<u64>)
    requires
        f.len() <= u32::MAX,
        regs_ok(op, f.len()),
        facts_hold(f, before),
        went_on(op, pool, before, after),
    ensures
        facts_hold(step(f, op, pool), after),
{
    let g = step(f, op, pool);
    lemma_step_reads(op, f.len());
    assert(g.len() == f.len());
    assert forall|i: int| 0 <= i < g.len() && #[trigger] g[i] implies after[i] & 3 == 0 by {
        if op_def(op) != Some(VReg(i as u32)) {
            assert(after[i] == before[i]);
            assert(!f[i] || before[i] & 3 == 0);
        }
    }
}

/// Facts are not given up without need: a register that an instruction neither defines nor tests keeps
/// what is known of it.
pub proof fn law_facts_are_kept(f: Seq<bool>, op: Ir, pool: Seq<PoolEntry>, i: int)
    requires
        0 <= i < f.len() <= u32::MAX,
        regs_ok(op, f.len()),
        op_def(op) != Some(VReg(i as u32)),
        f[i],
    ensures
        step(f, op, pool)[i],
{
    lemma_step_reads(op, f.len());
}

/// The registers that an instruction reads are registers of the method.
proof fn lemma_step_reads(op: Ir, n: nat)
    requires
        regs_ok(op, n),
    ensures
        match op {
            Ir::SmiArith { a, b, .. } => a.0 < n && b.0 < n,
            Ir::SmiArithNoOv { a, b, .. } => a.0 < n && b.0 < n,
            Ir::SmiArithNoOvImm { a, .. } => a.0 < n,
            Ir::SmiCmpBr { a, b, .. } => a.0 < n && b.0 < n,
            Ir::SmiCmpVal { a, b, .. } => a.0 < n && b.0 < n,
            Ir::Move { src, .. } => src.0 < n,
            _ => true,
        },
{
    let u = op_uses(op);
    if u.len() > 0 {
        assert(u[0].0 < n);
    }
    if u.len() > 1 {
        assert(u[1].0 < n);
    }
}

} // verus!
