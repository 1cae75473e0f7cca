//! How compiled code runs: every way through a unit keeps the depth of the stack, stays inside the
//! unit, and ends in a return.
use vstd::prelude::*;
#[allow(unused_imports)]
use crate::bytecode::Instr;
#[allow(unused_imports)]
use crate::frontend::ast::{BlockNode, Expr, Literal, MethodNode};
#[allow(unused_imports)]
use crate::frontend::capture::{control_of, positions, send_positions, Control, ScopeInfo};
#[allow(unused_imports)]
use crate::frontend::codegen::{
    block_literal, body, branch, built, cascade, class_var, discard, discards, dissolved, elements, entry_index,
    entry_moves, expr, exprs, fresh, inlined, inside, meaning, method_out, method_unit, not_nil_arm, prologue,
    sum, value_of, values, BodyKind, Cx, EntryV, KlassVars, Out, SiteV, UnitV, VarV,
};
#[allow(unused_imports)]
use crate::frontend::lexer::Span;

verus! {

// ── What an instruction does to the stack ───────────────────────────────

/// The values that an instruction takes from the stack.
pub open spec fn takes(i: Instr, ics: Seq<SiteV>) -> int {
    match i {
        Instr::StoreTempPop(_) | Instr::StoreInstvarPop(_) | Instr::StoreGlobalPop(_) => 1,
        Instr::StoreCtxTempPop { .. } | Instr::Dup | Instr::Pop => 1,
        Instr::BrTrueFwd(_) | Instr::BrFalseFwd(_) => 1,
        Instr::ReturnTos | Instr::BlockReturnTos | Instr::NlrTos => 1,
        Instr::Send { ic, .. } => ics[ic as int].argc + 1,
        Instr::PushClosure { ncopied, .. } => ncopied as int,
        _ => 0,
    }
}

/// The values that it puts there.
pub open spec fn leaves(i: Instr) -> int {
    match i {
        Instr::PushSelf | Instr::PushNil | Instr::PushTrue | Instr::PushFalse | Instr::PushSmi(_) => 1,
        Instr::PushLiteral(_) | Instr::PushTemp(_) | Instr::PushInstvar(_) | Instr::PushGlobal(_) => 1,
        Instr::PushCtxTemp { .. } | Instr::PushClosure { .. } | Instr::Send { .. } => 1,
        Instr::Dup => 2,
        _ => 0,
    }
}

/// Whether it ends a unit.
pub open spec fn is_return(i: Instr) -> bool {
    i is ReturnTos || i is ReturnSelf || i is BlockReturnTos || i is NlrTos
}

/// Whether the next instruction may follow.
pub open spec fn runs_on(i: Instr) -> bool {
    !is_return(i) && !(i is JumpFwd) && !(i is JumpBack)
}

/// Whether the tables hold what an instruction names.
pub open spec fn named(i: Instr, o: Out) -> bool {
    match i {
        Instr::PushLiteral(l) => l < o.lits.len() && (o.lits[l as int] is Value || o.lits[l as int] is ArrayClass),
        Instr::PushGlobal(l) | Instr::StoreGlobalPop(l) => l < o.lits.len() && (o.lits[l as int] is ClassVar
            || o.lits[l as int] is Global),
        Instr::PushClosure { lit, .. } => lit < o.lits.len() && (o.lits[lit as int] matches EntryV::Block(b) && b
            < o.blocks.len()),
        Instr::Send { ic, .. } => ic < o.ics.len(),
        _ => true,
    }
}

/// Whether the instruction at `k` fits the depths before the instructions from `a` to `b`: what it
/// takes is there, what may come after it stands inside with the depth that it leaves, and jumps go
/// the way they say.
pub open spec fn step(o: Out, a: int, b: int, dep: Seq<int>, k: int) -> bool {
    let i = o.code[k];
    let after = dep[k - a] - takes(i, o.ics) + leaves(i);
    &&& named(i, o)
    &&& takes(i, o.ics) <= dep[k - a]
    &&& runs_on(i) ==> dep[k + 1 - a] == after
    &&& match i {
        Instr::JumpFwd(t) | Instr::BrTrueFwd(t) | Instr::BrFalseFwd(t) => k < t <= b && dep[t - a] == after,
        Instr::JumpBack(t) => a <= t <= k && dep[t - a] == after,
        _ => true,
    }
}

/// Depths before each instruction from `a` on, and after the one before `b`.
pub open spec fn depths(o: Out, a: int, b: int, dep: Seq<int>) -> bool {
    &&& dep.len() == b - a + 1
    &&& forall|k: int| a <= k < b ==> #[trigger] step(o, a, b, dep, k)
}

/// Whether the code from `a` to `b` runs from depth `d` to depth `e`, by whatever way.
pub open spec fn runs(o: Out, a: int, b: int, d: int, e: int) -> bool {
    &&& 0 <= a <= b <= o.code.len()
    &&& exists|dep: Seq<int>| #[trigger] depths(o, a, b, dep) && dep[0] == d && dep[b - a] == e
}

/// A unit's code and tables.
pub open spec fn code_of(u: UnitV) -> Out {
    Out { code: u.code, lits: u.literals, blocks: u.blocks, ics: u.ics, ..fresh(0, Seq::empty()) }
}

/// Whether a unit runs from an empty stack to its last instruction, a return, by whatever way, and so
/// do its blocks.
pub open spec fn sound(u: UnitV) -> bool
    decreases u,
{
    &&& ended(code_of(u), 0)
    &&& forall|i: int| 0 <= i < u.blocks.len() ==> sound(#[trigger] u.blocks[i])
}

/// Whether the code from `a` on runs from an empty stack to a return at its end.
pub open spec fn ended(o: Out, a: int) -> bool {
    let last = o.code.len() - 1;
    &&& a <= last
    &&& is_return(o.code[last])
    &&& exists|e: int| #[trigger] runs(o, a, last, 0, e) && takes(o.code[last], o.ics) <= e
}

pub open spec fn all_sound(units: Seq<UnitV>) -> bool {
    forall|i: int| 0 <= i < units.len() ==> sound(#[trigger] units[i])
}

/// Whether indices into a unit's tables can be written down.
pub open spec fn fits(o: Out) -> bool {
    &&& o.code.len() <= usize::MAX
    &&& o.lits.len() <= u32::MAX
    &&& o.ics.len() <= u32::MAX
    &&& forall|i: int| 0 <= i < o.blocks.len() ==> unit_fits(#[trigger] o.blocks[i])
}

/// The same of a unit and its blocks.
pub open spec fn unit_fits(u: UnitV) -> bool
    decreases u,
{
    &&& u.code.len() <= usize::MAX
    &&& u.literals.len() <= u32::MAX
    &&& u.ics.len() <= u32::MAX
    &&& forall|i: int| 0 <= i < u.blocks.len() ==> unit_fits(#[trigger] u.blocks[i])
}

// ── Trees as they are parsed ────────────────────────────────────────────

/// An expression with returns and cascade receivers in their places, and no send of more arguments
/// than a send site can count.
pub open spec fn formed(e: Expr) -> bool
    decreases e, 0int,
{
    match e {
        Expr::Assign { value, .. } => formed(*value),
        Expr::Send { receiver, args, .. } => formed(*receiver) && args@.len() <= u8::MAX && formed_list(
            args@,
            args@.len() as int,
        ),
        Expr::Cascade { receiver, segments, .. } => formed(*receiver) && formed_segments(
            segments@,
            segments@.len() as int,
        ),
        Expr::DynArray { elems, .. } => formed_list(elems@, elems@.len() as int),
        Expr::Block(b) => formed_body(b.body@, b.body@.len() as int),
        Expr::Return { .. } | Expr::CascadeRcvr(_) => false,
        _ => true,
    }
}

/// A segment of a cascade: sends, the innermost to the cascade's receiver.
pub open spec fn segment(e: Expr) -> bool
    decreases e, 0int,
{
    match e {
        Expr::CascadeRcvr(_) => true,
        Expr::Send { receiver, args, .. } => segment(*receiver) && args@.len() <= u8::MAX && formed_list(
            args@,
            args@.len() as int,
        ),
        _ => false,
    }
}

pub open spec fn formed_list(es: Seq<Expr>, k: int) -> bool
    decreases es, k,
{
    if k <= 0 || k > es.len() {
        true
    } else {
        formed_list(es, k - 1) && formed(es[k - 1])
    }
}

pub open spec fn formed_segments(es: Seq<Expr>, k: int) -> bool
    decreases es, k,
{
    if k <= 0 || k > es.len() {
        true
    } else {
        formed_segments(es, k - 1) && segment(es[k - 1])
    }
}

/// A statement: an expression, or a return of one.
pub open spec fn formed_stmt(e: Expr) -> bool
    decreases e, 1int,
{
    match e {
        Expr::Return { value, .. } => formed(*value),
        _ => formed(e),
    }
}

pub open spec fn formed_body(es: Seq<Expr>, k: int) -> bool
    decreases es, k,
{
    if k <= 0 || k > es.len() {
        true
    } else {
        formed_body(es, k - 1) && formed_stmt(es[k - 1])
    }
}

// ── Joining pieces of code ──────────────────────────────────────────────

pub open spec fn prefix<T>(a: Seq<T>, b: Seq<T>) -> bool {
    a.len() <= b.len() && forall|i: int| 0 <= i < a.len() ==> a[i] == #[trigger] b[i]
}

/// Whether one state comes from the other by adding to it.
pub open spec fn grew(o: Out, p: Out) -> bool {
    &&& o.err is None
    &&& p.err is None
    &&& prefix(o.code, p.code)
    &&& prefix(o.lits, p.lits)
    &&& prefix(o.ics, p.ics)
    &&& prefix(o.blocks, p.blocks)
}

/// Whether what was added, if nothing failed, runs from depth `d` to depth `e`.
#[verifier::opaque]
spec fn adds(o: Out, p: Out, d: int, e: int) -> bool {
    p.err is None ==> grew(o, p) && (fits(p) && all_sound(o.blocks) ==> all_sound(p.blocks) && runs(
        p,
        o.code.len() as int,
        p.code.len() as int,
        d,
        e,
    ))
}

proof fn lemma_transport(o: Out, p: Out, a: int, b: int, d: int, e: int)
    requires
        runs(o, a, b, d, e),
        b <= p.code.len(),
        forall|k: int| a <= k < b ==> o.code[k] == #[trigger] p.code[k],
        prefix(o.lits, p.lits),
        prefix(o.ics, p.ics),
        o.blocks.len() <= p.blocks.len(),
    ensures
        runs(p, a, b, d, e),
{
    let dep = choose|dep: Seq<int>| #[trigger] depths(o, a, b, dep) && dep[0] == d && dep[b - a] == e;
    assert forall|k: int| a <= k < b implies #[trigger] step(p, a, b, dep, k) by {
        assert(step(o, a, b, dep, k));
        assert(o.code[k] == p.code[k]);
    }
    assert(depths(p, a, b, dep));
}

proof fn lemma_join(o: Out, a: int, m: int, b: int, d: int, e: int, f: int)
    requires
        runs(o, a, m, d, e),
        runs(o, m, b, e, f),
    ensures
        runs(o, a, b, d, f),
{
    let x = choose|dep: Seq<int>| #[trigger] depths(o, a, m, dep) && dep[0] == d && dep[m - a] == e;
    let y = choose|dep: Seq<int>| #[trigger] depths(o, m, b, dep) && dep[0] == e && dep[b - m] == f;
    let z = x.drop_last() + y;
    assert(forall|k: int| 0 <= k <= m - a ==> #[trigger] z[k] == x[k]);
    assert(forall|k: int| m <= k <= b ==> #[trigger] z[k - a] == y[k - m]);
    assert forall|k: int| a <= k < b implies #[trigger] step(o, a, b, z, k) by {
        if k < m {
            assert(step(o, a, m, x, k));
        } else {
            assert(step(o, m, b, y, k));
            assert(z[k - a] == y[k - m]);
            assert(z[k + 1 - a] == y[k + 1 - m]);
            match o.code[k] {
                Instr::JumpFwd(t) | Instr::BrTrueFwd(t) | Instr::BrFalseFwd(t) | Instr::JumpBack(t) => {
                    assert(z[t - a] == y[t - m]);
                },
                _ => {},
            }
        }
    }
    assert(depths(o, a, b, z));
}

proof fn lemma_nothing(o: Out, a: int, d: int)
    requires
        0 <= a <= o.code.len(),
    ensures
        runs(o, a, a, d, d),
{
    assert(depths(o, a, a, seq![d]));
}

/// One instruction without a target.
proof fn lemma_one(o: Out, k: int, d: int, e: int)
    requires
        0 <= k < o.code.len(),
        named(o.code[k], o),
        takes(o.code[k], o.ics) <= d,
        runs_on(o.code[k]) ==> e == d - takes(o.code[k], o.ics) + leaves(o.code[k]),
        !(o.code[k] is JumpFwd),
        !(o.code[k] is JumpBack),
        !(o.code[k] is BrTrueFwd),
        !(o.code[k] is BrFalseFwd),
    ensures
        runs(o, k, k + 1, d, e),
{
    let dep = seq![d, e];
    assert(step(o, k, k + 1, dep, k));
    assert(depths(o, k, k + 1, dep));
}

/// A branch over one piece of code to another, the first with a jump over the second at its end.
proof fn lemma_fork(o: Out, p: int, j: int, y: int, over: bool, d: int, e: int)
    requires
        0 <= p < j < y + 1,
        j < o.code.len(),
        o.code.len() <= usize::MAX,
        y <= o.code.len(),
        d >= 1,
        e >= 0,
        o.code[p] == branch(over, (j + 1) as usize),
        o.code[j] == Instr::JumpFwd(y as usize),
        runs(o, p + 1, j, d - 1, e),
        runs(o, j + 1, y, d - 1, e),
    ensures
        runs(o, p, y, d, e),
{
    let u = choose|dep: Seq<int>| #[trigger] depths(o, p + 1, j, dep) && dep[0] == d - 1 && dep[j - (p + 1)] == e;
    let v = choose|dep: Seq<int>| #[trigger] depths(o, j + 1, y, dep) && dep[0] == d - 1 && dep[y - (j + 1)] == e;
    let z = seq![d] + u + v;
    assert(forall|k: int| p + 1 <= k <= j ==> #[trigger] z[k - p] == u[k - (p + 1)]);
    assert(forall|k: int| j + 1 <= k <= y ==> #[trigger] z[k - p] == v[k - (j + 1)]);
    assert forall|k: int| p <= k < y implies #[trigger] step(o, p, y, z, k) by {
        if k == p {
            assert(z[p + 1 - p] == u[0]);
            assert(z[j + 1 - p] == v[0]);
            assert(z[p - p] == d);
        } else if k < j {
            assert(step(o, p + 1, j, u, k));
            assert(z[k - p] == u[k - (p + 1)]);
            assert(z[k + 1 - p] == u[k + 1 - (p + 1)]);
            match o.code[k] {
                Instr::JumpFwd(t) | Instr::BrTrueFwd(t) | Instr::BrFalseFwd(t) | Instr::JumpBack(t) => {
                    assert(z[t - p] == u[t - (p + 1)]);
                },
                _ => {},
            }
        } else if k == j {
            assert(z[j - p] == u[j - (p + 1)]);
            assert(z[y - p] == v[y - (j + 1)]);
        } else {
            assert(step(o, j + 1, y, v, k));
            assert(z[k - p] == v[k - (j + 1)]);
            assert(z[k + 1 - p] == v[k + 1 - (j + 1)]);
            match o.code[k] {
                Instr::JumpFwd(t) | Instr::BrTrueFwd(t) | Instr::BrFalseFwd(t) | Instr::JumpBack(t) => {
                    assert(z[t - p] == v[t - (j + 1)]);
                },
                _ => {},
            }
        }
    }
    assert(z[0] == d);
    assert(z[y - p] == v[y - (j + 1)]);
    assert(depths(o, p, y, z));
}

/// A loop: a test, a branch out, a piece of code, and a jump back to the test.
proof fn lemma_loop(o: Out, s: int, p: int, j: int, over: bool, d: int)
    requires
        0 <= s <= p < j < o.code.len(),
        o.code.len() <= usize::MAX,
        d >= 0,
        runs(o, s, p, d, d + 1),
        o.code[p] == branch(over, (j + 1) as usize),
        runs(o, p + 1, j, d, d),
        o.code[j] == Instr::JumpBack(s as usize),
    ensures
        runs(o, s, j + 1, d, d),
{
    let u = choose|dep: Seq<int>| #[trigger] depths(o, s, p, dep) && dep[0] == d && dep[p - s] == d + 1;
    let v = choose|dep: Seq<int>| #[trigger] depths(o, p + 1, j, dep) && dep[0] == d && dep[j - (p + 1)] == d;
    let z = u + v + seq![d];
    let b = j + 1;
    assert(forall|k: int| s <= k <= p ==> #[trigger] z[k - s] == u[k - s]);
    assert(forall|k: int| p + 1 <= k <= j ==> #[trigger] z[k - s] == v[k - (p + 1)]);
    assert(z[b - s] == d);
    assert forall|k: int| s <= k < b implies #[trigger] step(o, s, b, z, k) by {
        if k < p {
            assert(step(o, s, p, u, k));
            assert(z[k - s] == u[k - s]);
            assert(z[k + 1 - s] == u[k + 1 - s]);
            match o.code[k] {
                Instr::JumpFwd(t) | Instr::BrTrueFwd(t) | Instr::BrFalseFwd(t) | Instr::JumpBack(t) => {
                    assert(z[t - s] == u[t - s]);
                },
                _ => {},
            }
        } else if k == p {
            assert(z[p - s] == u[p - s]);
            assert(z[p + 1 - s] == v[0]);
        } else if k < j {
            assert(step(o, p + 1, j, v, k));
            assert(z[k - s] == v[k - (p + 1)]);
            assert(z[k + 1 - s] == v[k + 1 - (p + 1)]);
            match o.code[k] {
                Instr::JumpFwd(t) | Instr::BrTrueFwd(t) | Instr::BrFalseFwd(t) | Instr::JumpBack(t) => {
                    assert(z[t - s] == v[t - (p + 1)]);
                },
                _ => {},
            }
        } else {
            assert(z[j - s] == v[j - (p + 1)]);
            assert(z[s - s] == u[0]);
        }
    }
    assert(z[0] == d);
    assert(depths(o, s, b, z));
}

/// A loop without a test. What follows is never reached.
proof fn lemma_endless(o: Out, s: int, j: int, d: int, e: int)
    requires
        0 <= s <= j < o.code.len(),
        o.code.len() <= usize::MAX,
        d >= 0,
        runs(o, s, j, d, d),
        o.code[j] == Instr::JumpBack(s as usize),
    ensures
        runs(o, s, j + 1, d, e),
{
    let u = choose|dep: Seq<int>| #[trigger] depths(o, s, j, dep) && dep[0] == d && dep[j - s] == d;
    let z = u + seq![e];
    let b = j + 1;
    assert(forall|k: int| s <= k <= j ==> #[trigger] z[k - s] == u[k - s]);
    assert forall|k: int| s <= k < b implies #[trigger] step(o, s, b, z, k) by {
        assert(z[k - s] == u[k - s]);
        if k < j {
            assert(step(o, s, j, u, k));
            assert(z[k + 1 - s] == u[k + 1 - s]);
            match o.code[k] {
                Instr::JumpFwd(t) | Instr::BrTrueFwd(t) | Instr::BrFalseFwd(t) | Instr::JumpBack(t) => {
                    assert(z[t - s] == u[t - s]);
                },
                _ => {},
            }
        } else {
            assert(z[s - s] == u[0]);
        }
    }
    assert(z[0] == d);
    assert(z[b - s] == e);
    assert(depths(o, s, b, z));
}

// ── Adding to a unit ────────────────────────────────────────────────────

proof fn lemma_prefix_trans<T>(a: Seq<T>, b: Seq<T>, c: Seq<T>)
    requires
        prefix(a, b),
        prefix(b, c),
    ensures
        prefix(a, c),
{
    assert forall|i: int| 0 <= i < a.len() implies a[i] == #[trigger] c[i] by {
        assert(b[i] == c[i]);
    }
}

proof fn lemma_fits_back(o: Out, p: Out)
    requires
        prefix(o.lits, p.lits),
        prefix(o.ics, p.ics),
        prefix(o.blocks, p.blocks),
        o.code.len() <= p.code.len(),
        fits(p),
    ensures
        fits(o),
{
    assert forall|i: int| 0 <= i < o.blocks.len() implies unit_fits(#[trigger] o.blocks[i]) by {
        assert(unit_fits(p.blocks[i]));
    }
}

proof fn lemma_then(o: Out, p: Out, q: Out, d: int, e: int, f: int)
    requires
        adds(o, p, d, e),
        adds(p, q, e, f),
    ensures
        adds(o, q, d, f),
{
    reveal(adds);
    if q.err is None {
        lemma_prefix_trans(o.code, p.code, q.code);
        lemma_prefix_trans(o.lits, p.lits, q.lits);
        lemma_prefix_trans(o.ics, p.ics, q.ics);
        lemma_prefix_trans(o.blocks, p.blocks, q.blocks);
        if fits(q) && all_sound(o.blocks) {
            lemma_fits_back(p, q);
            lemma_transport(p, q, o.code.len() as int, p.code.len() as int, d, e);
            lemma_join(q, o.code.len() as int, p.code.len() as int, q.code.len() as int, d, e, f);
        }
    }
}

/// A change that leaves the code and the tables as they are.
proof fn lemma_same(o: Out, p: Out, d: int)
    requires
        p.err is None ==> o.err is None && p.code == o.code && p.lits == o.lits && p.ics == o.ics && p.blocks
            == o.blocks,
    ensures
        adds(o, p, d, d),
{
    reveal(adds);
    if p.err is None {
        lemma_nothing(p, p.code.len() as int, d);
    }
}

/// An instruction that names nothing and has no target.
spec fn plain(i: Instr) -> bool {
    match i {
        Instr::PushLiteral(_) | Instr::PushGlobal(_) | Instr::StoreGlobalPop(_) | Instr::PushClosure { .. } => false,
        Instr::Send { .. } | Instr::JumpFwd(_) | Instr::JumpBack(_) => false,
        Instr::BrTrueFwd(_) | Instr::BrFalseFwd(_) => false,
        _ => true,
    }
}

proof fn lemma_put(o: Out, i: Instr, d: int, e: int)
    requires
        plain(i),
        takes(i, o.ics) <= d,
        runs_on(i) ==> e == d - takes(i, o.ics) + leaves(i),
    ensures
        adds(o, o.put(i), d, e),
{
    reveal(adds);
    let p = o.put(i);
    if p.err is None {
        lemma_one(p, o.code.len() as int, d, e);
    }
}

proof fn lemma_entry_index(lits: Seq<EntryV>, e: EntryV, i: int)
    requires
        0 <= i <= lits.len(),
    ensures
        i <= entry_index(lits, e, i) <= lits.len(),
        entry_index(lits, e, i) < lits.len() ==> lits[entry_index(lits, e, i)] == e,
    decreases lits.len() - i,
{
    if i < lits.len() {
        lemma_entry_index(lits, e, i + 1);
    }
}

/// An instruction that names an entry of the frame.
proof fn lemma_put_entry(o: Out, p: Out, v: EntryV, i: Instr, d: int, e: int)
    requires
        i == Instr::PushLiteral(o.entry_at(v)) && (v is Value || v is ArrayClass) || (i == Instr::PushGlobal(
            o.entry_at(v),
        ) || i == Instr::StoreGlobalPop(o.entry_at(v))) && (v is ClassVar || v is Global),
        takes(i, o.ics) <= d,
        e == d - takes(i, o.ics) + leaves(i),
        p.err is None ==> p.code == o.code.push(i) && p.lits == o.with_entry(v).lits && p.ics == o.ics && p.blocks
            == o.blocks && o.err is None,
    ensures
        adds(o, p, d, e),
{
    reveal(adds);
    if p.err is None {
        lemma_entry_index(o.lits, v, 0);
        let at = entry_index(o.lits, v, 0);
        assert(p.lits[at] == v);
        if fits(p) {
            assert(o.entry_at(v) == at);
            lemma_one(p, o.code.len() as int, d, e);
        }
    }
}

proof fn lemma_push_entry(o: Out, v: EntryV, d: int)
    requires
        v is Value || v is ArrayClass,
        d >= 0,
    ensures
        adds(o, o.push_entry(v), d, d + 1),
{
    lemma_put_entry(o, o.push_entry(v), v, Instr::PushLiteral(o.entry_at(v)), d, d + 1);
}

proof fn lemma_number(o: Out, v: i64, d: int)
    requires
        d >= 0,
    ensures
        adds(o, o.number(v), d, d + 1),
{
    if -128 <= v <= 127 {
        lemma_put(o, Instr::PushSmi(v as i8), d, d + 1);
    } else {
        lemma_push_entry(o, EntryV::Value(crate::frontend::codegen::LitV::Smi(v)), d);
    }
}

proof fn lemma_literal(o: Out, lit: Literal, d: int)
    requires
        d >= 0,
    ensures
        adds(o, o.literal(lit), d, d + 1),
{
    reveal(adds);
    if o.err is None {
        match lit {
            Literal::Nil => lemma_put(o, Instr::PushNil, d, d + 1),
            Literal::True => lemma_put(o, Instr::PushTrue, d, d + 1),
            Literal::False => lemma_put(o, Instr::PushFalse, d, d + 1),
            Literal::Int(v) => lemma_number(o, v, d),
            _ => {
                let (v, objs) = crate::frontend::codegen::literal_value(o.objs, lit);
                let o1 = Out { objs, ..o };
                lemma_same(o, o1, d);
                lemma_push_entry(o1, EntryV::Value(v), d);
                lemma_then(o, o1, o1.push_entry(EntryV::Value(v)), d, d, d + 1);
            },
        }
    }
}

proof fn lemma_send(o: Out, selector: Seq<char>, argc: u8, super_: bool, d: int)
    requires
        d >= argc + 1,
    ensures
        adds(o, o.send(selector, argc, super_), d, d - argc),
{
    reveal(adds);
    let p = o.send(selector, argc, super_);
    if p.err is None && fits(p) {
        lemma_one(p, o.code.len() as int, d, d - argc);
    }
}

proof fn lemma_class_var(chain: Seq<KlassVars>, name: Seq<char>, k: int)
    ensures
        class_var(chain, name, k) matches Some(e) ==> e is ClassVar,
    decreases chain.len() - k,
{
    if 0 <= k < chain.len() {
        lemma_class_var(chain, name, k + 1);
    }
}

proof fn lemma_load(cx: Cx, h: Seq<(Seq<char>, u8)>, sid: u32, name: Seq<char>, span: Span, o: Out, d: int)
    requires
        d >= 0,
    ensures
        adds(o, o.load(cx, h, sid, name, span), d, d + 1),
{
    reveal(adds);
    lemma_class_var(cx.holder.chain@, name, 0);
    if o.err is None {
        match meaning(cx, h, sid, name, false, o.globals) {
            VarV::Local(s) => lemma_put(o, Instr::PushTemp(s), d, d + 1),
            VarV::Captured(depth, slot) => lemma_put(o, Instr::PushCtxTemp { depth, slot }, d, d + 1),
            VarV::InstVar(i) => lemma_put(o, Instr::PushInstvar(i), d, d + 1),
            VarV::Assoc(e) => lemma_put_entry(
                o,
                o.load(cx, h, sid, name, span),
                e,
                Instr::PushGlobal(o.entry_at(e)),
                d,
                d + 1,
            ),
            VarV::Unknown => {},
        }
    }
}

proof fn lemma_store(cx: Cx, h: Seq<(Seq<char>, u8)>, sid: u32, name: Seq<char>, span: Span, o: Out, d: int)
    requires
        d >= 1,
    ensures
        adds(o, o.store(cx, h, sid, name, span), d, d - 1),
{
    reveal(adds);
    lemma_class_var(cx.holder.chain@, name, 0);
    if o.err is None {
        match meaning(cx, h, sid, name, true, o.globals) {
            VarV::Local(s) => lemma_put(o, Instr::StoreTempPop(s), d, d - 1),
            VarV::Captured(depth, slot) => lemma_put(o, Instr::StoreCtxTempPop { depth, slot }, d, d - 1),
            VarV::InstVar(i) => lemma_put(o, Instr::StoreInstvarPop(i), d, d - 1),
            VarV::Assoc(e) => lemma_put_entry(
                o,
                o.store(cx, h, sid, name, span),
                e,
                Instr::StoreGlobalPop(o.entry_at(e)),
                d,
                d - 1,
            ),
            VarV::Unknown => {},
        }
    }
}

/// A branch over the code up to `c` and a jump, to the code up to `q`.
proof fn lemma_add_fork(o: Out, over: bool, c: Out, q: Out, d: int, e: int)
    requires
        d >= 1,
        e >= 0,
        adds(o.put(branch(over, 0)), c, d - 1, e),
        ({
            let j = c.put(Instr::JumpFwd(0));
            adds(j.fix(o.code.len() as int, branch(over, j.here())), q, d - 1, e)
        }),
    ensures
        adds(o, q.fix(c.code.len() as int, Instr::JumpFwd(q.here())), d, e),
{
    reveal(adds);
    let r = q.fix(c.code.len() as int, Instr::JumpFwd(q.here()));
    if r.err is None {
        let b = o.put(branch(over, 0));
        let at = o.code.len() as int;
        let j = c.put(Instr::JumpFwd(0));
        let f = j.fix(at, branch(over, j.here()));
        let end = c.code.len() as int;
        assert(grew(f, q));
        assert(grew(b, c));
        assert(j.code.len() == end + 1);
        assert(q.code.len() >= end + 1);
        assert forall|k: int| 0 <= k < at implies o.code[k] == #[trigger] r.code[k] by {
            assert(b.code[k] == c.code[k]);
            assert(f.code[k] == q.code[k]);
        }
        lemma_prefix_trans(o.lits, c.lits, q.lits);
        lemma_prefix_trans(o.ics, c.ics, q.ics);
        lemma_prefix_trans(o.blocks, c.blocks, q.blocks);
        assert(grew(o, r));
        if fits(r) && all_sound(o.blocks) {
            assert(fits(q));
            lemma_fits_back(c, q);
            lemma_fits_back(f, q);
            assert forall|k: int| at + 1 <= k < end implies c.code[k] == #[trigger] r.code[k] by {
                assert(f.code[k] == q.code[k]);
            }
            lemma_transport(c, r, at + 1, end, d - 1, e);
            lemma_transport(q, r, end + 1, q.code.len() as int, d - 1, e);
            assert(f.code[at] == q.code[at]);
            lemma_fork(r, at, end, r.code.len() as int, over, d, e);
        }
    }
}

/// A loop from `o`: the test up to `t`, the branch out, the code up to `c`, and the jump back.
proof fn lemma_add_loop(o: Out, t: Out, over: bool, c: Out, d: int)
    requires
        d >= 0,
        adds(o, t, d, d + 1),
        adds(t.put(branch(over, 0)), c, d, d),
    ensures
        ({
            let j = c.put(Instr::JumpBack(o.here()));
            adds(o, j.fix(t.code.len() as int, branch(over, j.here())), d, d)
        }),
{
    reveal(adds);
    let j = c.put(Instr::JumpBack(o.here()));
    let at = t.code.len() as int;
    let r = j.fix(at, branch(over, j.here()));
    if r.err is None {
        let b = t.put(branch(over, 0));
        let end = c.code.len() as int;
        assert(grew(b, c));
        assert(grew(o, t));
        assert forall|k: int| 0 <= k < at implies t.code[k] == #[trigger] r.code[k] by {
            assert(b.code[k] == c.code[k]);
        }
        lemma_prefix_trans(o.code, t.code, r.code);
        lemma_prefix_trans(o.lits, t.lits, r.lits);
        lemma_prefix_trans(o.ics, t.ics, r.ics);
        lemma_prefix_trans(o.blocks, t.blocks, r.blocks);
        assert(grew(o, r));
        if fits(r) && all_sound(o.blocks) {
            lemma_fits_back(c, r);
            lemma_fits_back(t, r);
            lemma_transport(t, r, o.code.len() as int, at, d, d + 1);
            lemma_transport(c, r, at + 1, end, d, d);
            lemma_loop(r, o.code.len() as int, at, end, over, d);
        }
    }
}

proof fn lemma_add_endless(o: Out, c: Out, d: int, e: int)
    requires
        d >= 0,
        adds(o, c, d, d),
    ensures
        adds(o, c.put(Instr::JumpBack(o.here())), d, e),
{
    reveal(adds);
    let r = c.put(Instr::JumpBack(o.here()));
    if r.err is None && fits(r) && all_sound(o.blocks) {
        lemma_fits_back(c, r);
        lemma_transport(c, r, o.code.len() as int, c.code.len() as int, d, d);
        lemma_endless(r, o.code.len() as int, c.code.len() as int, d, e);
    }
}

// ── The code of each construct ──────────────────────────────────────────

proof fn lemma_ret(o: Out, in_block: bool, d: int, e: int)
    requires
        d >= 1,
    ensures
        adds(o, o.ret(in_block), d, e),
{
    lemma_put(
        o,
        if in_block {
            Instr::NlrTos
        } else {
            Instr::ReturnTos
        },
        d,
        e,
    );
}

proof fn lemma_failed(o: Out, p: Out, d: int, e: int)
    requires
        p.err is Some,
    ensures
        adds(o, p, d, e),
{
    reveal(adds);
}

proof fn lemma_unfailed(o: Out, p: Out, d: int, e: int)
    requires
        adds(o, p, d, e),
        p.err is None,
    ensures
        o.err is None,
        o.code.len() <= p.code.len(),
{
    reveal(adds);
}

/// An expression adds `gain` values: one, or none where it works on the receiver of a cascade.
proof fn lemma_expr(cx: Cx, in_block: bool, h: Seq<(Seq<char>, u8)>, sid: u32, e: Expr, o: Out, d: int, gain: int)
    requires
        gain == 1 && formed(e) || gain == 0 && segment(e),
        d >= 0,
        d + gain >= 1,
    ensures
        adds(o, expr(cx, in_block, h, sid, e, o), d, d + gain),
    decreases e, 3int,
{
    let p = expr(cx, in_block, h, sid, e, o);
    if o.err is Some {
        lemma_failed(o, p, d, d + gain);
    } else {
        match e {
            Expr::SelfRef(_) => lemma_put(o, Instr::PushSelf, d, d + 1),
            Expr::CascadeRcvr(_) => lemma_same(o, o, d),
            Expr::Var { name, span } => lemma_load(cx, h, sid, name@, span, o, d),
            Expr::Lit { value, .. } => lemma_literal(o, value, d),
            Expr::Assign { name, value, span } => {
                let o1 = expr(cx, in_block, h, sid, *value, o);
                lemma_expr(cx, in_block, h, sid, *value, o, d, 1);
                lemma_assign(cx, h, sid, name@, span, o, o1, d);
            },
            Expr::Send { receiver, selector, args, is_super, .. } => match send_positions(
                selector@,
                *receiver,
                args@,
                is_super,
            ) {
                Some(_) => {
                    lemma_inlined(cx, in_block, h, sid, e, o, d, gain);
                },
                None => {
                    let o1 = expr(cx, in_block, h, sid, *receiver, o);
                    let o2 = exprs(cx, in_block, h, sid, args@, args@.len() as int, o1);
                    lemma_expr(cx, in_block, h, sid, *receiver, o, d, gain);
                    lemma_exprs(cx, in_block, h, sid, args@, args@.len() as int, o1, d + gain);
                    lemma_then(o, o1, o2, d, d + gain, d + gain + args@.len());
                    lemma_send(o2, selector@, args@.len() as u8, is_super, d + gain + args@.len());
                    lemma_then(o, o2, p, d, d + gain + args@.len(), d + gain);
                },
            },
            Expr::Cascade { receiver, segments, .. } => {
                let o1 = expr(cx, in_block, h, sid, *receiver, o);
                lemma_expr(cx, in_block, h, sid, *receiver, o, d, 1);
                lemma_cascade(cx, in_block, h, sid, segments@, segments@.len() as int, o1, d + 1);
                lemma_then(o, o1, p, d, d + 1, d + 1);
            },
            Expr::DynArray { elems, .. } => {
                let o1 = o.push_entry(EntryV::ArrayClass);
                let o2 = o1.number(elems@.len() as i64);
                let o3 = o2.send("new:"@, 1, false);
                lemma_push_entry(o, EntryV::ArrayClass, d);
                lemma_number(o1, elems@.len() as i64, d + 1);
                lemma_then(o, o1, o2, d, d + 1, d + 2);
                lemma_send(o2, "new:"@, 1, false, d + 2);
                lemma_then(o, o2, o3, d, d + 2, d + 1);
                lemma_elements(cx, in_block, h, sid, elems@, elems@.len() as int, o3, d + 1);
                lemma_then(o, o3, p, d, d + 1, d + 1);
            },
            Expr::Block(b) => lemma_block_literal(cx, *b, o, d),
            Expr::Return { .. } => {},
        }
    }
}

/// The value at `o1` stored, and left.
proof fn lemma_assign(cx: Cx, h: Seq<(Seq<char>, u8)>, sid: u32, name: Seq<char>, span: Span, o: Out, o1: Out, d: int)
    requires
        d >= 0,
        adds(o, o1, d, d + 1),
    ensures
        adds(o, o1.put(Instr::Dup).store(cx, h, sid, name, span), d, d + 1),
{
    let o2 = o1.put(Instr::Dup);
    lemma_put(o1, Instr::Dup, d + 1, d + 2);
    lemma_then(o, o1, o2, d, d + 1, d + 2);
    lemma_store(cx, h, sid, name, span, o2, d + 2);
    lemma_then(o, o2, o2.store(cx, h, sid, name, span), d, d + 2, d + 1);
}

proof fn lemma_exprs(cx: Cx, in_block: bool, h: Seq<(Seq<char>, u8)>, sid: u32, es: Seq<Expr>, k: int, o: Out, d: int)
    requires
        0 <= k <= es.len(),
        formed_list(es, k),
        d >= 0,
    ensures
        adds(o, exprs(cx, in_block, h, sid, es, k, o), d, d + k),
    decreases es, k,
{
    if k == 0 {
        lemma_same(o, o, d);
    } else {
        let o1 = exprs(cx, in_block, h, sid, es, k - 1, o);
        lemma_exprs(cx, in_block, h, sid, es, k - 1, o, d);
        lemma_expr(cx, in_block, h, sid, es[k - 1], o1, d + k - 1, 1);
        lemma_then(o, o1, exprs(cx, in_block, h, sid, es, k, o), d, d + k - 1, d + k);
    }
}

proof fn lemma_cascade(cx: Cx, in_block: bool, h: Seq<(Seq<char>, u8)>, sid: u32, es: Seq<Expr>, k: int, o: Out, d: int)
    requires
        0 <= k <= es.len(),
        formed_segments(es, k),
        d >= 1,
    ensures
        adds(o, cascade(cx, in_block, h, sid, es, k, o), d, d),
    decreases es, k,
{
    if k == 0 {
        lemma_same(o, o, d);
    } else {
        let p = cascade(cx, in_block, h, sid, es, k, o);
        let o1 = cascade(cx, in_block, h, sid, es, k - 1, o);
        lemma_cascade(cx, in_block, h, sid, es, k - 1, o, d);
        if k < es.len() {
            let o2 = o1.put(Instr::Dup);
            let o3 = expr(cx, in_block, h, sid, es[k - 1], o2);
            lemma_put(o1, Instr::Dup, d, d + 1);
            lemma_then(o, o1, o2, d, d, d + 1);
            lemma_expr(cx, in_block, h, sid, es[k - 1], o2, d + 1, 0);
            lemma_then(o, o2, o3, d, d + 1, d + 1);
            lemma_put(o3, Instr::Pop, d + 1, d);
            lemma_then(o, o3, p, d, d + 1, d);
        } else {
            lemma_expr(cx, in_block, h, sid, es[k - 1], o1, d, 0);
            lemma_then(o, o1, p, d, d, d);
        }
    }
}

proof fn lemma_elements(cx: Cx, in_block: bool, h: Seq<(Seq<char>, u8)>, sid: u32, es: Seq<Expr>, k: int, o: Out, d: int)
    requires
        0 <= k <= es.len(),
        formed_list(es, k),
        d >= 1,
    ensures
        adds(o, elements(cx, in_block, h, sid, es, k, o), d, d),
    decreases es, k,
{
    if k == 0 {
        lemma_same(o, o, d);
    } else {
        let p = elements(cx, in_block, h, sid, es, k, o);
        let o1 = elements(cx, in_block, h, sid, es, k - 1, o);
        let o2 = o1.put(Instr::Dup);
        let o3 = o2.number(k as i64);
        let o4 = expr(cx, in_block, h, sid, es[k - 1], o3);
        let o5 = o4.send("at:put:"@, 2, false);
        lemma_elements(cx, in_block, h, sid, es, k - 1, o, d);
        lemma_put(o1, Instr::Dup, d, d + 1);
        lemma_then(o, o1, o2, d, d, d + 1);
        lemma_number(o2, k as i64, d + 1);
        lemma_then(o, o2, o3, d, d + 1, d + 2);
        lemma_expr(cx, in_block, h, sid, es[k - 1], o3, d + 2, 1);
        lemma_then(o, o3, o4, d, d + 2, d + 3);
        lemma_send(o4, "at:put:"@, 2, false, d + 3);
        lemma_then(o, o4, o5, d, d + 3, d + 1);
        lemma_put(o5, Instr::Pop, d + 1, d);
        lemma_then(o, o5, p, d, d + 1, d);
    }
}

proof fn lemma_dissolved(cx: Cx, in_block: bool, h: Seq<(Seq<char>, u8)>, sid: u32, e: Expr, o: Out, d: int)
    requires
        e is Block,
        formed(e),
        d >= 0,
    ensures
        adds(o, dissolved(cx, in_block, h, sid, e, o), d, d + 1),
    decreases e, 1int,
{
    match e {
        Expr::Block(b) => {
            let o1 = o.took_block(*b);
            lemma_same(o, o1, d);
            lemma_values(cx, in_block, inside(h, *b, o), sid, b.body@, o1, d);
            lemma_then(o, o1, dissolved(cx, in_block, h, sid, e, o), d, d, d + 1);
        },
        _ => {},
    }
}

proof fn lemma_not_nil_arm(cx: Cx, in_block: bool, h: Seq<(Seq<char>, u8)>, sid: u32, e: Expr, o: Out, d: int)
    requires
        e is Block,
        formed(e),
        d >= 1,
    ensures
        adds(o, not_nil_arm(cx, in_block, h, sid, e, o), d, d),
    decreases e, 2int,
{
    let p = not_nil_arm(cx, in_block, h, sid, e, o);
    match e {
        Expr::Block(b) => if b.params@.len() == 0 {
            let o1 = o.put(Instr::Pop);
            lemma_put(o, Instr::Pop, d, d - 1);
            lemma_dissolved(cx, in_block, h, sid, e, o1, d - 1);
            lemma_then(o, o1, p, d, d - 1, d);
        } else {
            let h2 = inside(h, *b, o);
            let o1 = o.took_block(*b);
            let o2 = o1.store(cx, h2, sid, b.params@[0]@, b.span);
            lemma_same(o, o1, d);
            lemma_store(cx, h2, sid, b.params@[0]@, b.span, o1, d);
            lemma_then(o, o1, o2, d, d, d - 1);
            lemma_values(cx, in_block, h2, sid, b.body@, o2, d - 1);
            lemma_then(o, o2, p, d, d - 1, d);
        },
        _ => {},
    }
}

proof fn lemma_values(cx: Cx, in_block: bool, h: Seq<(Seq<char>, u8)>, sid: u32, es: Seq<Expr>, o: Out, d: int)
    requires
        formed_body(es, es.len() as int),
        d >= 0,
    ensures
        adds(o, values(cx, in_block, h, sid, es, o), d, d + 1),
    decreases es, es.len() + 1,
{
    let n = es.len() as int;
    let p = values(cx, in_block, h, sid, es, o);
    if n == 0 {
        lemma_put(o, Instr::PushNil, d, d + 1);
    } else {
        let o1 = discards(cx, in_block, h, sid, es, n - 1, o);
        lemma_discards(cx, in_block, h, sid, es, n - 1, o, d);
        match es[n - 1] {
            Expr::Return { value, .. } => {
                let o2 = expr(cx, in_block, h, sid, *value, o1);
                assert(formed_stmt(es[n - 1]));
                assert(formed(*value));
                lemma_expr(cx, in_block, h, sid, *value, o1, d, 1);
                lemma_then(o, o1, o2, d, d, d + 1);
                lemma_ret(o2, in_block, d + 1, d + 1);
                lemma_then(o, o2, p, d, d + 1, d + 1);
            },
            last => {
                assert(formed_stmt(last));
                lemma_value_of(cx, in_block, h, sid, last, o1, d);
                lemma_then(o, o1, p, d, d, d + 1);
            },
        }
    }
}

proof fn lemma_value_of(cx: Cx, in_block: bool, h: Seq<(Seq<char>, u8)>, sid: u32, e: Expr, o: Out, d: int)
    requires
        formed(e),
        d >= 0,
    ensures
        adds(o, value_of(cx, in_block, h, sid, e, o), d, d + 1),
    decreases e, 4int,
{
    let o1 = o.line(e.span().line);
    let p = value_of(cx, in_block, h, sid, e, o);
    lemma_same(o, o1, d);
    match e {
        Expr::Assign { name, value, span } => {
            let o2 = expr(cx, in_block, h, sid, *value, o1);
            lemma_expr(cx, in_block, h, sid, *value, o1, d, 1);
            lemma_assign(cx, h, sid, name@, span, o1, o2, d);
        },
        _ => lemma_expr(cx, in_block, h, sid, e, o1, d, 1),
    }
    lemma_then(o, o1, p, d, d, d + 1);
}

proof fn lemma_discards(cx: Cx, in_block: bool, h: Seq<(Seq<char>, u8)>, sid: u32, es: Seq<Expr>, k: int, o: Out, d: int)
    requires
        0 <= k <= es.len(),
        formed_body(es, es.len() as int),
        d >= 0,
    ensures
        adds(o, discards(cx, in_block, h, sid, es, k, o), d, d),
    decreases es, k,
{
    if k == 0 {
        lemma_same(o, o, d);
    } else {
        let o1 = discards(cx, in_block, h, sid, es, k - 1, o);
        lemma_discards(cx, in_block, h, sid, es, k - 1, o, d);
        lemma_each_stmt(es, es.len() as int, k - 1);
        lemma_discard(cx, in_block, h, sid, es[k - 1], o1, d);
        lemma_then(o, o1, discards(cx, in_block, h, sid, es, k, o), d, d, d);
    }
}

proof fn lemma_each_stmt(es: Seq<Expr>, k: int, i: int)
    requires
        formed_body(es, k),
        0 <= i < k <= es.len(),
    ensures
        formed_stmt(es[i]),
    decreases k,
{
    if i < k - 1 {
        lemma_each_stmt(es, k - 1, i);
    }
}

proof fn lemma_each_formed(es: Seq<Expr>, k: int, i: int)
    requires
        formed_list(es, k),
        0 <= i < k <= es.len(),
    ensures
        formed(es[i]),
    decreases k,
{
    if i < k - 1 {
        lemma_each_formed(es, k - 1, i);
    }
}

proof fn lemma_discard(cx: Cx, in_block: bool, h: Seq<(Seq<char>, u8)>, sid: u32, e: Expr, o: Out, d: int)
    requires
        formed_stmt(e),
        d >= 0,
    ensures
        adds(o, discard(cx, in_block, h, sid, e, o), d, d),
    decreases e, 4int,
{
    let o1 = o.line(e.span().line);
    let p = discard(cx, in_block, h, sid, e, o);
    lemma_same(o, o1, d);
    match e {
        Expr::Return { value, .. } => {
            let o2 = expr(cx, in_block, h, sid, *value, o1);
            assert(formed(*value));
            lemma_expr(cx, in_block, h, sid, *value, o1, d, 1);
            lemma_ret(o2, in_block, d + 1, d);
            lemma_then(o1, o2, p, d, d + 1, d);
        },
        Expr::Assign { name, value, span } => {
            let o2 = expr(cx, in_block, h, sid, *value, o1);
            lemma_expr(cx, in_block, h, sid, *value, o1, d, 1);
            lemma_store(cx, h, sid, name@, span, o2, d + 1);
            lemma_then(o1, o2, p, d, d + 1, d);
        },
        _ => {
            let o2 = expr(cx, in_block, h, sid, e, o1);
            lemma_expr(cx, in_block, h, sid, e, o1, d, 1);
            lemma_put(o2, Instr::Pop, d + 1, d);
            lemma_then(o1, o2, p, d, d + 1, d);
        },
    }
    lemma_then(o, o1, p, d, d, d);
}

proof fn lemma_nil_test(o: Out, d: int)
    requires
        d >= 1,
    ensures
        adds(o, o.nil_test(), d, d + 1),
{
    let o1 = o.put(Instr::Dup);
    let o2 = o1.put(Instr::PushNil);
    lemma_put(o, Instr::Dup, d, d + 1);
    lemma_put(o1, Instr::PushNil, d + 1, d + 2);
    lemma_then(o, o1, o2, d, d + 1, d + 2);
    lemma_send(o2, "=="@, 1, false, d + 2);
    lemma_then(o, o2, o.nil_test(), d, d + 2, d + 1);
}

proof fn lemma_loop_test(o: Out, i: u8, limit: u8, d: int)
    requires
        d >= 0,
    ensures
        adds(o, o.loop_test(i, limit), d, d + 1),
{
    let o1 = o.put(Instr::PushTemp(i));
    let o2 = o1.put(Instr::PushTemp(limit));
    lemma_put(o, Instr::PushTemp(i), d, d + 1);
    lemma_put(o1, Instr::PushTemp(limit), d + 1, d + 2);
    lemma_then(o, o1, o2, d, d + 1, d + 2);
    lemma_send(o2, "<="@, 1, false, d + 2);
    lemma_then(o, o2, o.loop_test(i, limit), d, d + 2, d + 1);
}

/// A counted loop from `o`: its test, the body up to `c`, and the step.
proof fn lemma_counted(o: Out, i: u8, limit: u8, c: Out, d: int)
    requires
        d >= 0,
        adds(o.loop_test(i, limit).put(branch(false, 0)), c, d, d + 1),
    ensures
        ({
            let t = o.loop_test(i, limit);
            let s = c.put(Instr::Pop).loop_step(i, o.here());
            adds(o, s.fix(t.code.len() as int, branch(false, s.here())), d, d)
        }),
{
    let t = o.loop_test(i, limit);
    let b = t.put(branch(false, 0));
    let c1 = c.put(Instr::Pop);
    let c2 = c1.put(Instr::PushTemp(i));
    let c3 = c2.put(Instr::PushSmi(1));
    let c4 = c3.send("+"@, 1, false);
    let c5 = c4.put(Instr::StoreTempPop(i));
    lemma_loop_test(o, i, limit, d);
    lemma_put(c, Instr::Pop, d + 1, d);
    lemma_then(b, c, c1, d, d + 1, d);
    lemma_put(c1, Instr::PushTemp(i), d, d + 1);
    lemma_then(b, c1, c2, d, d, d + 1);
    lemma_put(c2, Instr::PushSmi(1), d + 1, d + 2);
    lemma_then(b, c2, c3, d, d + 1, d + 2);
    lemma_send(c3, "+"@, 1, false, d + 2);
    lemma_then(b, c3, c4, d, d + 2, d + 1);
    lemma_put(c4, Instr::StoreTempPop(i), d + 1, d);
    lemma_then(b, c4, c5, d, d + 1, d);
    lemma_add_loop(o, t, false, c5, d);
}

/// The moves at a unit's start leave nothing.
proof fn lemma_prologue(info: ScopeInfo, k: int, o: Out)
    ensures
        adds(o, prologue(info, k, o), 0, 0),
    decreases k,
{
    if k <= 0 {
        lemma_same(o, o, 0);
    } else {
        let o1 = prologue(info, k - 1, o);
        let slot = info.vars@[k - 1].1;
        lemma_prologue(info, k - 1, o);
        if slot.captured {
            let o2 = o1.put(Instr::PushTemp((k - 1) as u8));
            let store = Instr::StoreCtxTempPop { depth: 0, slot: slot.ctx_slot->0 as u8 };
            lemma_put(o1, Instr::PushTemp((k - 1) as u8), 0, 1);
            lemma_then(o, o1, o2, 0, 0, 1);
            lemma_put(o2, store, 1, 0);
            lemma_then(o, o2, o2.put(store), 0, 1, 0);
        }
    }
}

/// Whether what was added, if nothing failed, runs to a return at its end.
#[verifier::opaque]
spec fn ends(o: Out, p: Out) -> bool {
    p.err is None ==> grew(o, p) && (fits(p) && all_sound(o.blocks) ==> all_sound(p.blocks) && ended(
        p,
        o.code.len() as int,
    ))
}

proof fn lemma_ends(o: Out, p: Out, i: Instr, e: int)
    requires
        adds(o, p, 0, e),
        is_return(i),
        takes(i, p.ics) <= e,
    ensures
        ends(o, p.put(i)),
{
    reveal(adds);
    reveal(ends);
    let q = p.put(i);
    if q.err is None {
        lemma_prefix_trans(o.code, p.code, q.code);
        if fits(q) && all_sound(o.blocks) {
            lemma_fits_back(p, q);
            lemma_transport(p, q, o.code.len() as int, p.code.len() as int, 0, e);
        }
    }
}

proof fn lemma_body(cx: Cx, kind: BodyKind, sid: u32, es: Seq<Expr>, start: Out, o: Out)
    requires
        formed_body(es, es.len() as int),
        adds(start, o, 0, 0),
    ensures
        ends(start, body(cx, kind, sid, es, o)),
    decreases es, es.len() + 1,
{
    let h = Seq::<(Seq<char>, u8)>::empty();
    let n = es.len() as int;
    if n == 0 {
        if kind is Block {
            lemma_put(o, Instr::PushNil, 0, 1);
            lemma_then(start, o, o.put(Instr::PushNil), 0, 0, 1);
            lemma_ends(start, o.put(Instr::PushNil), Instr::BlockReturnTos, 1);
        } else {
            lemma_ends(start, o, Instr::ReturnSelf, 0);
        }
    } else if kind is Method {
        let o1 = discards(cx, false, h, sid, es, n, o);
        lemma_discards(cx, false, h, sid, es, n, o, 0);
        lemma_then(start, o, o1, 0, 0, 0);
        lemma_ends(start, o1, Instr::ReturnSelf, 0);
    } else {
        let in_block = kind is Block;
        let o1 = discards(cx, in_block, h, sid, es, n - 1, o);
        lemma_discards(cx, in_block, h, sid, es, n - 1, o, 0);
        lemma_then(start, o, o1, 0, 0, 0);
        match es[n - 1] {
            Expr::Return { value, .. } => {
                let o2 = expr(cx, in_block, h, sid, *value, o1);
                assert(formed_stmt(es[n - 1]));
                assert(formed(*value));
                lemma_expr(cx, in_block, h, sid, *value, o1, 0, 1);
                lemma_then(start, o1, o2, 0, 0, 1);
                lemma_ends(
                    start,
                    o2,
                    if in_block {
                        Instr::NlrTos
                    } else {
                        Instr::ReturnTos
                    },
                    1,
                );
            },
            last => {
                assert(formed_stmt(last));
                let o2 = value_of(cx, in_block, h, sid, last, o1);
                lemma_value_of(cx, in_block, h, sid, last, o1, 0);
                lemma_then(start, o1, o2, 0, 0, 1);
                lemma_ends(
                    start,
                    o2,
                    if in_block {
                        Instr::BlockReturnTos
                    } else {
                        Instr::ReturnTos
                    },
                    1,
                );
            },
        }
    }
}

/// A state with a unit's code and tables, for the unit.
proof fn lemma_unit(o: Out, u: UnitV)
    requires
        ended(o, 0),
        all_sound(o.blocks),
        u.code == o.code,
        u.literals == o.lits,
        u.ics == o.ics,
        u.blocks == o.blocks,
    ensures
        sound(u),
{
    let q = code_of(u);
    let last = o.code.len() - 1;
    let e = choose|e: int| #[trigger] runs(o, 0, last, 0, e) && takes(o.code[last], o.ics) <= e;
    lemma_transport(o, q, 0, last, 0, e);
    assert(ended(q, 0));
}

proof fn lemma_entry_moves(info: ScopeInfo, o: Out)
    ensures
        adds(o, entry_moves(info, o), 0, 0),
{
    if info.has_ctx {
        lemma_prologue(
            info,
            if info.argc <= info.vars@.len() {
                info.argc as int
            } else {
                info.vars@.len() as int
            },
            o,
        );
    } else {
        lemma_same(o, o, 0);
    }
}

proof fn lemma_block_literal(cx: Cx, b: BlockNode, o: Out, d: int)
    requires
        formed_body(b.body@, b.body@.len() as int),
        d >= 0,
    ensures
        adds(o, block_literal(cx, b, o), d, d + 1),
    decreases b, 0int,
{
    reveal(adds);
    reveal(ends);
    let p = block_literal(cx, b, o);
    if p.err is None {
        let info = cx.capture.scopes@[b.scope_id as int];
        let argc = b.params@.len() as usize;
        let start = fresh(sum(info.frame_temp_count, argc), o.globals);
        let moved = entry_moves(info, start);
        let inner = body(cx, BodyKind::Block, b.scope_id, b.body@, moved);
        lemma_entry_moves(info, start);
        lemma_body(cx, BodyKind::Block, b.scope_id, b.body@, start, moved);
        let u = built(inner, "aBlock"@, argc, info, true, false);
        assert(p.blocks == o.blocks.push(u));
        assert(p.code.last() == Instr::PushClosure { lit: o.lits.len() as u32, ncopied: 0 });
        if fits(p) && all_sound(o.blocks) {
            assert(unit_fits(p.blocks[o.blocks.len() as int]));
            assert forall|i: int| 0 <= i < inner.blocks.len() implies unit_fits(#[trigger] inner.blocks[i]) by {
                assert(unit_fits(u.blocks[i]));
            }
            assert(fits(inner));
            lemma_unit(inner, u);
            assert forall|i: int| 0 <= i < p.blocks.len() implies sound(#[trigger] p.blocks[i]) by {
                if i < o.blocks.len() {
                    assert(sound(o.blocks[i]));
                }
            }
            lemma_one(p, o.code.len() as int, d, d + 1);
        }
    }
}

/// A branch around one block; the other way yields a constant.
#[verifier::spinoff_prover]
proof fn lemma_conditional(cx: Cx, in_block: bool, h: Seq<(Seq<char>, u8)>, sid: u32, e: Expr, o: Out, d: int, gain: int)
    requires
        e matches Expr::Send { receiver, selector, args, .. } && (control_of(selector@) == Some(Control::IfTrue) || control_of(selector@) == Some(Control::IfFalse) || control_of(selector@) == Some(Control::And) || control_of(selector@) == Some(Control::Or)) && args@.len() == 1 && args@[0] is Block && formed(args@[0]) && (gain == 1 && formed(*receiver)
            || gain == 0 && segment(*receiver)),
        d >= 0,
        d + gain >= 1,
    ensures
        adds(o, inlined(cx, in_block, h, sid, e, o), d, d + gain),
    decreases e, 1int,
{
    let p = inlined(cx, in_block, h, sid, e, o);
    let v = d + gain;
    match e {
        Expr::Send { receiver, selector, args, .. } => {
            let c = control_of(selector@)->0;
            let over = c is IfFalse || c is Or;
            let i = if c is And {
                Instr::PushFalse
            } else if c is Or {
                Instr::PushTrue
            } else {
                Instr::PushNil
            };
            let o1 = expr(cx, in_block, h, sid, *receiver, o);
            let b = o1.put(branch(over, 0));
            let arm = dissolved(cx, in_block, h, sid, args@[0], b);
            let o2 = arm.put(Instr::JumpFwd(0));
            let f = o2.fix(o1.code.len() as int, branch(over, o2.here()));
            let o3 = f.put(i);
            let q = o3.fix(arm.code.len() as int, Instr::JumpFwd(o3.here()));
            lemma_expr(cx, in_block, h, sid, *receiver, o, d, gain);
            lemma_dissolved(cx, in_block, h, sid, args@[0], b, v - 1);
            lemma_put(f, i, v - 1, v);
            lemma_add_fork(o1, over, arm, o3, v, v);
            lemma_then(o, o1, q, d, v, v);
            if p.err is None {
                assert(o2.code.len() - 1 == arm.code.len());
                assert(p == q);
            } else {
                lemma_failed(o, p, d, v);
            }
        },
        _ => {},
    }
}

/// A branch between two blocks.
#[verifier::spinoff_prover]
proof fn lemma_if_else(cx: Cx, in_block: bool, h: Seq<(Seq<char>, u8)>, sid: u32, e: Expr, o: Out, d: int, gain: int)
    requires
        e matches Expr::Send { receiver, selector, args, .. } && (control_of(selector@) == Some(Control::IfTrueIfFalse) || control_of(selector@) == Some(Control::IfFalseIfTrue)) && args@.len() == 2 && args@[0] is Block && args@[1] is Block && formed(args@[0])
            && formed(args@[1]) && (gain == 1 && formed(*receiver)
            || gain == 0 && segment(*receiver)),
        d >= 0,
        d + gain >= 1,
    ensures
        adds(o, inlined(cx, in_block, h, sid, e, o), d, d + gain),
    decreases e, 1int,
{
    let p = inlined(cx, in_block, h, sid, e, o);
    let v = d + gain;
    match e {
        Expr::Send { receiver, selector, args, .. } => {
            let (t, f) = if control_of(selector@) == Some(Control::IfTrueIfFalse) {
                (args@[0], args@[1])
            } else {
                (args@[1], args@[0])
            };
            let o1 = expr(cx, in_block, h, sid, *receiver, o);
            let b = o1.put(branch(false, 0));
            let arm = dissolved(cx, in_block, h, sid, t, b);
            let o2 = arm.put(Instr::JumpFwd(0));
            let g = o2.fix(o1.code.len() as int, branch(false, o2.here()));
            let o3 = dissolved(cx, in_block, h, sid, f, g);
            let q = o3.fix(arm.code.len() as int, Instr::JumpFwd(o3.here()));
            lemma_expr(cx, in_block, h, sid, *receiver, o, d, gain);
            lemma_dissolved(cx, in_block, h, sid, t, b, v - 1);
            lemma_dissolved(cx, in_block, h, sid, f, g, v - 1);
            lemma_add_fork(o1, false, arm, o3, v, v);
            lemma_then(o, o1, q, d, v, v);
            if p.err is None {
                lemma_unfailed(g, o3, v - 1, v);
                assert(o2.code.len() - 1 == arm.code.len());
                assert(p == q);
            } else {
                lemma_failed(o, p, d, v);
            }
        },
        _ => {},
    }
}

/// A loop over two blocks.
#[verifier::spinoff_prover]
proof fn lemma_while_do(cx: Cx, in_block: bool, h: Seq<(Seq<char>, u8)>, sid: u32, e: Expr, o: Out, d: int, gain: int)
    requires
        e matches Expr::Send { receiver, selector, args, .. } && (control_of(selector@) == Some(Control::WhileTrueDo) || control_of(selector@) == Some(Control::WhileFalseDo)) && args@.len() == 1 && args@[0] is Block && formed(args@[0]) && *receiver is Block
            && formed(*receiver) && gain == 1 && (gain == 1 && formed(*receiver)
            || gain == 0 && segment(*receiver)),
        d >= 0,
        d + gain >= 1,
    ensures
        adds(o, inlined(cx, in_block, h, sid, e, o), d, d + gain),
    decreases e, 1int,
{
    let p = inlined(cx, in_block, h, sid, e, o);
    match e {
        Expr::Send { receiver, selector, args, .. } => {
            let over = control_of(selector@) == Some(Control::WhileFalseDo);
            let o1 = dissolved(cx, in_block, h, sid, *receiver, o);
            let b = o1.put(branch(over, 0));
            let arm = dissolved(cx, in_block, h, sid, args@[0], b);
            let popped = arm.put(Instr::Pop);
            let o2 = popped.put(Instr::JumpBack(o.here()));
            let o3 = o2.fix(o1.code.len() as int, branch(over, o2.here()));
            lemma_dissolved(cx, in_block, h, sid, *receiver, o, d);
            lemma_dissolved(cx, in_block, h, sid, args@[0], b, d);
            lemma_put(arm, Instr::Pop, d + 1, d);
            lemma_then(b, arm, popped, d, d + 1, d);
            lemma_add_loop(o, o1, over, popped, d);
            lemma_put(o3, Instr::PushNil, d, d + 1);
            lemma_then(o, o3, o3.put(Instr::PushNil), d, d, d + 1);
            assert(p == o3.put(Instr::PushNil));
        },
        _ => {},
    }
}

/// A loop over one block.
#[verifier::spinoff_prover]
proof fn lemma_while(cx: Cx, in_block: bool, h: Seq<(Seq<char>, u8)>, sid: u32, e: Expr, o: Out, d: int, gain: int)
    requires
        e matches Expr::Send { receiver, selector, args, .. } && (control_of(selector@) == Some(Control::WhileTrue) || control_of(selector@) == Some(Control::WhileFalse)) && args@.len() == 0 && *receiver is Block && formed(*receiver) && gain == 1 && (gain == 1 && formed(*receiver)
            || gain == 0 && segment(*receiver)),
        d >= 0,
        d + gain >= 1,
    ensures
        adds(o, inlined(cx, in_block, h, sid, e, o), d, d + gain),
    decreases e, 1int,
{
    let p = inlined(cx, in_block, h, sid, e, o);
    match e {
        Expr::Send { receiver, selector, args, .. } => {
            let over = control_of(selector@) == Some(Control::WhileFalse);
            let o1 = dissolved(cx, in_block, h, sid, *receiver, o);
            let b = o1.put(branch(over, 0));
            let o2 = b.put(Instr::JumpBack(o.here()));
            let o3 = o2.fix(o1.code.len() as int, branch(over, o2.here()));
            lemma_dissolved(cx, in_block, h, sid, *receiver, o, d);
            lemma_same(b, b, d);
            lemma_add_loop(o, o1, over, b, d);
            lemma_put(o3, Instr::PushNil, d, d + 1);
            lemma_then(o, o3, o3.put(Instr::PushNil), d, d, d + 1);
            assert(p == o3.put(Instr::PushNil));
        },
        _ => {},
    }
}

/// A loop without a test.
#[verifier::spinoff_prover]
proof fn lemma_repeat(cx: Cx, in_block: bool, h: Seq<(Seq<char>, u8)>, sid: u32, e: Expr, o: Out, d: int, gain: int)
    requires
        e matches Expr::Send { receiver, selector, args, .. } && control_of(selector@) == Some(Control::Repeat) && args@.len() == 0 && *receiver is Block && formed(*receiver) && gain == 1 && (gain == 1 && formed(*receiver)
            || gain == 0 && segment(*receiver)),
        d >= 0,
        d + gain >= 1,
    ensures
        adds(o, inlined(cx, in_block, h, sid, e, o), d, d + gain),
    decreases e, 1int,
{
    let p = inlined(cx, in_block, h, sid, e, o);
    match e {
        Expr::Send { receiver, selector, args, .. } => {
            let o1 = dissolved(cx, in_block, h, sid, *receiver, o);
            let o2 = o1.put(Instr::Pop);
            let o3 = o2.put(Instr::JumpBack(o.here()));
            lemma_dissolved(cx, in_block, h, sid, *receiver, o, d);
            lemma_put(o1, Instr::Pop, d + 1, d);
            lemma_then(o, o1, o2, d, d + 1, d);
            lemma_add_endless(o, o2, d, d);
            lemma_put(o3, Instr::PushNil, d, d + 1);
            lemma_then(o, o3, o3.put(Instr::PushNil), d, d, d + 1);
            assert(p == o3.put(Instr::PushNil));
        },
        _ => {},
    }
}

/// A loop a number of times.
#[verifier::spinoff_prover]
proof fn lemma_times_repeat(cx: Cx, in_block: bool, h: Seq<(Seq<char>, u8)>, sid: u32, e: Expr, o: Out, d: int, gain: int)
    requires
        e matches Expr::Send { receiver, selector, args, .. } && control_of(selector@) == Some(Control::TimesRepeat) && args@.len() == 1 && args@[0] is Block && formed(args@[0]) && (gain == 1 && formed(*receiver)
            || gain == 0 && segment(*receiver)),
        d >= 0,
        d + gain >= 1,
    ensures
        adds(o, inlined(cx, in_block, h, sid, e, o), d, d + gain),
    decreases e, 1int,
{
    let p = inlined(cx, in_block, h, sid, e, o);
    let v = d + gain;
    match e {
        Expr::Send { receiver, selector, args, .. } => match args@[0] {
            Expr::Block(b) => {
                let r = expr(cx, in_block, h, sid, *receiver, o);
                let o1 = r.put(Instr::Dup);
                let limit = o1.next as u8;
                let i = crate::frontend::codegen::succ(o1.next) as u8;
                let s1 = o1.took();
                let s2 = s1.put(Instr::StoreTempPop(limit));
                let s3 = s2.took();
                let s4 = s3.put(Instr::PushSmi(1));
                let o2 = s4.put(Instr::StoreTempPop(i));
                let o3 = o2.loop_test(i, limit);
                let br = o3.put(branch(false, 0));
                let o4 = values(cx, in_block, h, sid, b.body@, br);
                lemma_expr(cx, in_block, h, sid, *receiver, o, d, gain);
                lemma_put(r, Instr::Dup, v, v + 1);
                lemma_then(o, r, o1, d, v, v + 1);
                lemma_same(o1, s1, v + 1);
                lemma_then(o, o1, s1, d, v + 1, v + 1);
                lemma_put(s1, Instr::StoreTempPop(limit), v + 1, v);
                lemma_then(o, s1, s2, d, v + 1, v);
                lemma_same(s2, s3, v);
                lemma_then(o, s2, s3, d, v, v);
                lemma_put(s3, Instr::PushSmi(1), v, v + 1);
                lemma_then(o, s3, s4, d, v, v + 1);
                lemma_put(s4, Instr::StoreTempPop(i), v + 1, v);
                lemma_then(o, s4, o2, d, v + 1, v);
                lemma_values(cx, in_block, h, sid, b.body@, br, v);
                lemma_counted(o2, i, limit, o4, v);
                let o5 = o4.put(Instr::Pop).loop_step(i, o2.here());
                let q = o5.fix(o3.code.len() as int, branch(false, o5.here()));
                lemma_then(o, o2, q, d, v, v);
                assert(p == q);
            },
            _ => {},
        },
        _ => {},
    }
}

/// A loop over a range.
#[verifier::spinoff_prover]
proof fn lemma_to_do(cx: Cx, in_block: bool, h: Seq<(Seq<char>, u8)>, sid: u32, e: Expr, o: Out, d: int, gain: int)
    requires
        e matches Expr::Send { receiver, selector, args, .. } && control_of(selector@) == Some(Control::ToDo) && args@.len() == 2 && args@[1] is Block && formed(args@[0])
            && formed(args@[1]) && (gain == 1 && formed(*receiver)
            || gain == 0 && segment(*receiver)),
        d >= 0,
        d + gain >= 1,
    ensures
        adds(o, inlined(cx, in_block, h, sid, e, o), d, d + gain),
    decreases e, 1int,
{
    let p = inlined(cx, in_block, h, sid, e, o);
    let v = d + gain;
    match e {
        Expr::Send { receiver, selector, args, .. } => match args@[1] {
            Expr::Block(b) => {
                let r = expr(cx, in_block, h, sid, *receiver, o);
                let o1 = r.put(Instr::Dup);
                let i = o1.next as u8;
                let s1 = o1.took();
                let s2 = s1.put(Instr::StoreTempPop(i));
                let o2 = expr(cx, in_block, h, sid, args@[0], s2);
                let limit = o2.next as u8;
                let s3 = o2.took();
                let o3 = s3.put(Instr::StoreTempPop(limit));
                let o4 = o3.loop_test(i, limit);
                let br = o4.put(branch(false, 0));
                let h2 = h.push((b.params@[0]@, i));
                let o5 = values(cx, in_block, h2, sid, b.body@, br);
                lemma_expr(cx, in_block, h, sid, *receiver, o, d, gain);
                lemma_put(r, Instr::Dup, v, v + 1);
                lemma_then(o, r, o1, d, v, v + 1);
                lemma_same(o1, s1, v + 1);
                lemma_then(o, o1, s1, d, v + 1, v + 1);
                lemma_put(s1, Instr::StoreTempPop(i), v + 1, v);
                lemma_then(o, s1, s2, d, v + 1, v);
                lemma_expr(cx, in_block, h, sid, args@[0], s2, v, 1);
                lemma_then(o, s2, o2, d, v, v + 1);
                lemma_same(o2, s3, v + 1);
                lemma_then(o, o2, s3, d, v + 1, v + 1);
                lemma_put(s3, Instr::StoreTempPop(limit), v + 1, v);
                lemma_then(o, s3, o3, d, v + 1, v);
                lemma_values(cx, in_block, h2, sid, b.body@, br, v);
                lemma_counted(o3, i, limit, o5, v);
                let o6 = o5.put(Instr::Pop).loop_step(i, o3.here());
                let q = o6.fix(o4.code.len() as int, branch(false, o6.here()));
                lemma_then(o, o3, q, d, v, v);
                assert(p == q);
            },
            _ => {},
        },
        _ => {},
    }
}

/// A block for nil.
#[verifier::spinoff_prover]
proof fn lemma_if_nil(cx: Cx, in_block: bool, h: Seq<(Seq<char>, u8)>, sid: u32, e: Expr, o: Out, d: int, gain: int)
    requires
        e matches Expr::Send { receiver, selector, args, .. } && control_of(selector@) == Some(Control::IfNil) && args@.len() == 1 && args@[0] is Block && formed(args@[0]) && (gain == 1 && formed(*receiver)
            || gain == 0 && segment(*receiver)),
        d >= 0,
        d + gain >= 1,
    ensures
        adds(o, inlined(cx, in_block, h, sid, e, o), d, d + gain),
    decreases e, 1int,
{
    let p = inlined(cx, in_block, h, sid, e, o);
    let v = d + gain;
    match e {
        Expr::Send { receiver, selector, args, .. } => {
            let r = expr(cx, in_block, h, sid, *receiver, o);
            let o1 = r.nil_test();
            lemma_expr(cx, in_block, h, sid, *receiver, o, d, gain);
            lemma_nil_test(r, v);
            lemma_then(o, r, o1, d, v, v + 1);
            let b = o1.put(branch(false, 0));
            let b1 = b.put(Instr::Pop);
            let arm = dissolved(cx, in_block, h, sid, args@[0], b1);
            lemma_put(b, Instr::Pop, v, v - 1);
            lemma_dissolved(cx, in_block, h, sid, args@[0], b1, v - 1);
            lemma_then(b, b1, arm, v, v - 1, v);
            let o2 = arm.put(Instr::JumpFwd(0));
            let f = o2.fix(o1.code.len() as int, branch(false, o2.here()));
            let o3 = f;
            lemma_same(f, f, v);
            let q = o3.fix(arm.code.len() as int, Instr::JumpFwd(o3.here()));
            lemma_add_fork(o1, false, arm, o3, v + 1, v);
            lemma_then(o, o1, q, d, v + 1, v);
            if p.err is None {
                lemma_unfailed(f, o3, v, v);
                lemma_unfailed(b, arm, v, v);
                assert(o2.code.len() - 1 == arm.code.len());
                assert(p == q);
            } else {
                lemma_failed(o, p, d, v);
            }
        },
        _ => {},
    }
}

/// A block for a value other than nil.
#[verifier::spinoff_prover]
proof fn lemma_if_not_nil(cx: Cx, in_block: bool, h: Seq<(Seq<char>, u8)>, sid: u32, e: Expr, o: Out, d: int, gain: int)
    requires
        e matches Expr::Send { receiver, selector, args, .. } && control_of(selector@) == Some(Control::IfNotNil) && args@.len() == 1 && args@[0] is Block && formed(args@[0]) && (gain == 1 && formed(*receiver)
            || gain == 0 && segment(*receiver)),
        d >= 0,
        d + gain >= 1,
    ensures
        adds(o, inlined(cx, in_block, h, sid, e, o), d, d + gain),
    decreases e, 1int,
{
    let p = inlined(cx, in_block, h, sid, e, o);
    let v = d + gain;
    match e {
        Expr::Send { receiver, selector, args, .. } => {
            let r = expr(cx, in_block, h, sid, *receiver, o);
            let o1 = r.nil_test();
            lemma_expr(cx, in_block, h, sid, *receiver, o, d, gain);
            lemma_nil_test(r, v);
            lemma_then(o, r, o1, d, v, v + 1);
            let b = o1.put(branch(true, 0));
            let arm = not_nil_arm(cx, in_block, h, sid, args@[0], b);
            lemma_not_nil_arm(cx, in_block, h, sid, args@[0], b, v);
            let o2 = arm.put(Instr::JumpFwd(0));
            let f = o2.fix(o1.code.len() as int, branch(true, o2.here()));
            let o3 = f;
            lemma_same(f, f, v);
            let q = o3.fix(arm.code.len() as int, Instr::JumpFwd(o3.here()));
            lemma_add_fork(o1, true, arm, o3, v + 1, v);
            lemma_then(o, o1, q, d, v + 1, v);
            if p.err is None {
                lemma_unfailed(f, o3, v, v);
                lemma_unfailed(b, arm, v, v);
                assert(o2.code.len() - 1 == arm.code.len());
                assert(p == q);
            } else {
                lemma_failed(o, p, d, v);
            }
        },
        _ => {},
    }
}

/// Blocks for nil and for another value.
#[verifier::spinoff_prover]
proof fn lemma_nil_else(cx: Cx, in_block: bool, h: Seq<(Seq<char>, u8)>, sid: u32, e: Expr, o: Out, d: int, gain: int)
    requires
        e matches Expr::Send { receiver, selector, args, .. } && control_of(selector@) == Some(Control::IfNilIfNotNil) && args@.len() == 2 && args@[0] is Block && args@[1] is Block && formed(args@[0])
            && formed(args@[1]) && (gain == 1 && formed(*receiver)
            || gain == 0 && segment(*receiver)),
        d >= 0,
        d + gain >= 1,
    ensures
        adds(o, inlined(cx, in_block, h, sid, e, o), d, d + gain),
    decreases e, 1int,
{
    let p = inlined(cx, in_block, h, sid, e, o);
    let v = d + gain;
    match e {
        Expr::Send { receiver, selector, args, .. } => {
            let r = expr(cx, in_block, h, sid, *receiver, o);
            let o1 = r.nil_test();
            lemma_expr(cx, in_block, h, sid, *receiver, o, d, gain);
            lemma_nil_test(r, v);
            lemma_then(o, r, o1, d, v, v + 1);
            let b = o1.put(branch(false, 0));
            let b1 = b.put(Instr::Pop);
            let arm = dissolved(cx, in_block, h, sid, args@[0], b1);
            lemma_put(b, Instr::Pop, v, v - 1);
            lemma_dissolved(cx, in_block, h, sid, args@[0], b1, v - 1);
            lemma_then(b, b1, arm, v, v - 1, v);
            let o2 = arm.put(Instr::JumpFwd(0));
            let f = o2.fix(o1.code.len() as int, branch(false, o2.here()));
            let o3 = not_nil_arm(cx, in_block, h, sid, args@[1], f);
            lemma_not_nil_arm(cx, in_block, h, sid, args@[1], f, v);
            let q = o3.fix(arm.code.len() as int, Instr::JumpFwd(o3.here()));
            lemma_add_fork(o1, false, arm, o3, v + 1, v);
            lemma_then(o, o1, q, d, v + 1, v);
            if p.err is None {
                lemma_unfailed(f, o3, v, v);
                lemma_unfailed(b, arm, v, v);
                assert(o2.code.len() - 1 == arm.code.len());
                assert(p == q);
            } else {
                lemma_failed(o, p, d, v);
            }
        },
        _ => {},
    }
}

/// Blocks for a value other than nil and for nil.
#[verifier::spinoff_prover]
proof fn lemma_not_nil_else(cx: Cx, in_block: bool, h: Seq<(Seq<char>, u8)>, sid: u32, e: Expr, o: Out, d: int, gain: int)
    requires
        e matches Expr::Send { receiver, selector, args, .. } && control_of(selector@) == Some(Control::IfNotNilIfNil) && args@.len() == 2 && args@[0] is Block && args@[1] is Block && formed(args@[0])
            && formed(args@[1]) && (gain == 1 && formed(*receiver)
            || gain == 0 && segment(*receiver)),
        d >= 0,
        d + gain >= 1,
    ensures
        adds(o, inlined(cx, in_block, h, sid, e, o), d, d + gain),
    decreases e, 1int,
{
    let p = inlined(cx, in_block, h, sid, e, o);
    let v = d + gain;
    match e {
        Expr::Send { receiver, selector, args, .. } => {
            let r = expr(cx, in_block, h, sid, *receiver, o);
            let o1 = r.nil_test();
            lemma_expr(cx, in_block, h, sid, *receiver, o, d, gain);
            lemma_nil_test(r, v);
            lemma_then(o, r, o1, d, v, v + 1);
            let b = o1.put(branch(true, 0));
            let arm = not_nil_arm(cx, in_block, h, sid, args@[0], b);
            lemma_not_nil_arm(cx, in_block, h, sid, args@[0], b, v);
            let o2 = arm.put(Instr::JumpFwd(0));
            let f = o2.fix(o1.code.len() as int, branch(true, o2.here()));
            let f1 = f.put(Instr::Pop);
            let o3 = dissolved(cx, in_block, h, sid, args@[1], f1);
            lemma_put(f, Instr::Pop, v, v - 1);
            lemma_dissolved(cx, in_block, h, sid, args@[1], f1, v - 1);
            lemma_then(f, f1, o3, v, v - 1, v);
            let q = o3.fix(arm.code.len() as int, Instr::JumpFwd(o3.here()));
            lemma_add_fork(o1, true, arm, o3, v + 1, v);
            lemma_then(o, o1, q, d, v + 1, v);
            if p.err is None {
                lemma_unfailed(f, o3, v, v);
                lemma_unfailed(b, arm, v, v);
                assert(o2.code.len() - 1 == arm.code.len());
                assert(p == q);
            } else {
                lemma_failed(o, p, d, v);
            }
        },
        _ => {},
    }
}

/// A control-flow send whose blocks are dissolved.
#[verifier::spinoff_prover]
proof fn lemma_inlined(cx: Cx, in_block: bool, h: Seq<(Seq<char>, u8)>, sid: u32, e: Expr, o: Out, d: int, gain: int)
    requires
        e matches Expr::Send { receiver, selector, args, .. } && positions(selector@, *receiver, args@) is Some,
        gain == 1 && formed(e) || gain == 0 && segment(e),
        d >= 0,
        d + gain >= 1,
    ensures
        adds(o, inlined(cx, in_block, h, sid, e, o), d, d + gain),
    decreases e, 2int,
{
    match e {
        Expr::Send { receiver, selector, args, .. } => {
            assert(gain == 1 && formed(*receiver) || gain == 0 && segment(*receiver));
            assert(*receiver is Block ==> !segment(*receiver));
            if args@.len() >= 1 {
                lemma_each_formed(args@, args@.len() as int, 0);
            }
            if args@.len() >= 2 {
                lemma_each_formed(args@, args@.len() as int, 1);
            }
            match control_of(selector@)->0 {
                Control::IfTrue | Control::IfFalse | Control::And | Control::Or => lemma_conditional(
                    cx,
                    in_block,
                    h,
                    sid,
                    e,
                    o,
                    d,
                    gain,
                ),
                Control::IfTrueIfFalse | Control::IfFalseIfTrue => lemma_if_else(cx, in_block, h, sid, e, o, d, gain),
                Control::WhileTrueDo | Control::WhileFalseDo => lemma_while_do(cx, in_block, h, sid, e, o, d, gain),
                Control::WhileTrue | Control::WhileFalse => lemma_while(cx, in_block, h, sid, e, o, d, gain),
                Control::Repeat => lemma_repeat(cx, in_block, h, sid, e, o, d, gain),
                Control::TimesRepeat => lemma_times_repeat(cx, in_block, h, sid, e, o, d, gain),
                Control::ToDo => lemma_to_do(cx, in_block, h, sid, e, o, d, gain),
                Control::IfNil => lemma_if_nil(cx, in_block, h, sid, e, o, d, gain),
                Control::IfNotNil => lemma_if_not_nil(cx, in_block, h, sid, e, o, d, gain),
                Control::IfNilIfNotNil => lemma_nil_else(cx, in_block, h, sid, e, o, d, gain),
                Control::IfNotNilIfNil => lemma_not_nil_else(cx, in_block, h, sid, e, o, d, gain),
            }
        },
        _ => {},
    }
}

/// The code of an expression adds to what is there.
pub(crate) proof fn lemma_expr_grew(cx: Cx, in_block: bool, h: Seq<(Seq<char>, u8)>, sid: u32, e: Expr, o: Out)
    requires
        formed(e) || segment(e),
        expr(cx, in_block, h, sid, e, o).err is None,
    ensures
        grew(o, expr(cx, in_block, h, sid, e, o)),
{
    reveal(adds);
    if formed(e) {
        lemma_expr(cx, in_block, h, sid, e, o, 0, 1);
    } else {
        lemma_expr(cx, in_block, h, sid, e, o, 1, 0);
    }
}

/// So does that of a dissolved block.
pub(crate) proof fn lemma_dissolved_grew(cx: Cx, in_block: bool, h: Seq<(Seq<char>, u8)>, sid: u32, e: Expr, o: Out)
    requires
        e is Block,
        formed(e),
        dissolved(cx, in_block, h, sid, e, o).err is None,
    ensures
        grew(o, dissolved(cx, in_block, h, sid, e, o)),
{
    reveal(adds);
    lemma_dissolved(cx, in_block, h, sid, e, o, 0);
}

/// So does that of the arm for a value other than nil.
pub(crate) proof fn lemma_arm_grew(cx: Cx, in_block: bool, h: Seq<(Seq<char>, u8)>, sid: u32, e: Expr, o: Out)
    requires
        e is Block,
        formed(e),
        not_nil_arm(cx, in_block, h, sid, e, o).err is None,
    ensures
        grew(o, not_nil_arm(cx, in_block, h, sid, e, o)),
{
    reveal(adds);
    lemma_not_nil_arm(cx, in_block, h, sid, e, o, 1);
}

/// So does that of statements.
pub(crate) proof fn lemma_values_grew(cx: Cx, in_block: bool, h: Seq<(Seq<char>, u8)>, sid: u32, es: Seq<Expr>, o: Out)
    requires
        formed_body(es, es.len() as int),
        values(cx, in_block, h, sid, es, o).err is None,
    ensures
        grew(o, values(cx, in_block, h, sid, es, o)),
{
    reveal(adds);
    lemma_values(cx, in_block, h, sid, es, o, 0);
}

// ── Laws ────────────────────────────────────────────────────────────────

/// The code of an expression leaves exactly one value, by whatever way it runs, and takes nothing of
/// what was on the stack before it.
pub proof fn law_expression_leaves_one_value(
    cx: Cx,
    in_block: bool,
    h: Seq<(Seq<char>, u8)>,
    sid: u32,
    e: Expr,
    o: Out,
)
    requires
        formed(e),
        expr(cx, in_block, h, sid, e, o).err is None,
        fits(expr(cx, in_block, h, sid, e, o)),
        all_sound(o.blocks),
    ensures
        runs(
            expr(cx, in_block, h, sid, e, o),
            o.code.len() as int,
            expr(cx, in_block, h, sid, e, o).code.len() as int,
            0,
            1,
        ),
{
    reveal(adds);
    lemma_expr(cx, in_block, h, sid, e, o, 0, 1);
}

/// The code of a statement whose value nobody wants leaves nothing.
pub proof fn law_statement_leaves_nothing(
    cx: Cx,
    in_block: bool,
    h: Seq<(Seq<char>, u8)>,
    sid: u32,
    e: Expr,
    o: Out,
)
    requires
        formed_stmt(e),
        discard(cx, in_block, h, sid, e, o).err is None,
        fits(discard(cx, in_block, h, sid, e, o)),
        all_sound(o.blocks),
    ensures
        runs(
            discard(cx, in_block, h, sid, e, o),
            o.code.len() as int,
            discard(cx, in_block, h, sid, e, o).code.len() as int,
            0,
            0,
        ),
{
    reveal(adds);
    lemma_discard(cx, in_block, h, sid, e, o, 0);
}

/// Whatever a method is compiled to starts with an empty stack, never takes more than is there, has
/// the same depth wherever two ways meet, names only what its tables hold, jumps only inside itself,
/// and ends in a return; and so do its blocks. The frame of a foreign function holds its descriptor
/// instead of literals, so there the body is left out.
pub proof fn law_compiled_method_is_sound(cx: Cx, m: MethodNode, globals: Seq<Seq<char>>)
    requires
        formed_body(m.body@, m.body@.len() as int),
        m.ffi is None || m.body@.len() == 0,
        method_out(cx, m, globals).err is None,
        fits(method_out(cx, m, globals)),
    ensures
        sound(method_unit(cx, m, method_out(cx, m, globals))),
{
    reveal(ends);
    let o = method_out(cx, m, globals);
    let info = cx.capture.scopes@[0];
    let start = fresh(sum(info.frame_temp_count, m.params@.len() as usize), globals);
    let moved = entry_moves(info, start);
    let kind = if cx.top_level {
        BodyKind::DoIt
    } else {
        BodyKind::Method
    };
    lemma_entry_moves(info, start);
    lemma_body(cx, kind, 0, m.body@, start, moved);
    assert(o == body(cx, kind, 0, m.body@, moved));
    if m.ffi is None {
        lemma_unit(o, method_unit(cx, m, o));
    } else {
        lemma_no_literals(info, start);
        lemma_unit(o, method_unit(cx, m, o));
    }
}

/// The moves at a unit's start name no literal.
proof fn lemma_no_literals(info: ScopeInfo, o: Out)
    ensures
        entry_moves(info, o).lits == o.lits,
{
    if info.has_ctx {
        lemma_no_literals_in(
            info,
            if info.argc <= info.vars@.len() {
                info.argc as int
            } else {
                info.vars@.len() as int
            },
            o,
        );
    }
}

proof fn lemma_no_literals_in(info: ScopeInfo, k: int, o: Out)
    ensures
        prologue(info, k, o).lits == o.lits,
    decreases k,
{
    if k > 0 {
        lemma_no_literals_in(info, k - 1, o);
    }
}

/// The code of a body starts with what was there before it.
pub(crate) proof fn lemma_body_grew(cx: Cx, kind: BodyKind, sid: u32, es: Seq<Expr>, o: Out)
    requires
        formed_body(es, es.len() as int),
        body(cx, kind, sid, es, o).err is None,
        o.err is None,
    ensures
        grew(o, body(cx, kind, sid, es, o)),
{
    reveal(ends);
    lemma_same(o, o, 0);
    lemma_body(cx, kind, sid, es, o, o);
}

} // verus!
