//! What expressions and statements leave: constants, variables, assignments, sends, cascades
//! and returns, on the model of the stack machine.
use vstd::prelude::*;
#[allow(unused_imports)]
use crate::bytecode::Instr;
#[allow(unused_imports)]
use crate::frontend::ast::{BlockNode, Expr, Literal};
#[allow(unused_imports)]
use crate::frontend::capture::{resolution, send_positions, texts, Resolved};
#[allow(unused_imports)]
use crate::frontend::codegen::{
    body, cascade, class_var, declares_global, discard, entry_index, expr, exprs, flat_inst_vars, hoisted, literal_value, literal_values,
    meaning, name_index, obj_index, relative_line, shared, upper_case, value_of, BodyKind, Cx, EntryV, KlassVars, LitV, ObjV,
    Out, SiteV, VarV,
};
#[allow(unused_imports)]
use crate::frontend::control::{goes, lemma_here, lemma_on, lemma_one_on, step, steps, Mem, Val, World};
#[allow(unused_imports)]
use crate::frontend::entry::keeps_contexts;
#[allow(unused_imports)]
use crate::frontend::flow::{formed, formed_list, grew, lemma_expr_grew, prefix, segment};
#[allow(unused_imports)]
use crate::frontend::lexer::Span;

verus! {

// ── Constants ───────────────────────────────────────────────────────────

/// Whether a value of a unit stands for a literal: a number or a name as it is, or an object with the
/// literal's content. An array's object is none of the first `base`.
pub open spec fn stands_for(objs: Seq<ObjV>, base: int, v: LitV, lit: Literal) -> bool
    decreases lit, 0int,
{
    match lit {
        Literal::Int(n) => v == LitV::Smi(n),
        Literal::Nil => v == LitV::Nil,
        Literal::True => v == LitV::True,
        Literal::False => v == LitV::False,
        Literal::Symbol(s) => v == LitV::Symbol(s@),
        Literal::BigInt { negative, digits } => v matches LitV::Obj(i) && i < objs.len() && objs[i as int] == ObjV::BigInt(
            negative,
            digits@,
        ),
        Literal::Float(b) => v matches LitV::Obj(i) && i < objs.len() && objs[i as int] == ObjV::Double(b),
        Literal::Char(c) => v matches LitV::Obj(i) && i < objs.len() && objs[i as int] == ObjV::Char(c),
        Literal::Str(s) => v matches LitV::Obj(i) && i < objs.len() && objs[i as int] == ObjV::Str(s@),
        Literal::ByteArray(b) => v matches LitV::Obj(i) && i < objs.len() && objs[i as int] == ObjV::Bytes(b@),
        Literal::Array(items) => v matches LitV::Obj(i) && base <= i < objs.len() && (objs[i as int] matches ObjV::Array(
            vals,
        ) && vals.len() == items@.len() && all_stand_for(objs, base, vals, items@, items@.len() as int)),
    }
}

/// The same of the first `k` values and literals.
pub open spec fn all_stand_for(objs: Seq<ObjV>, base: int, vals: Seq<LitV>, items: Seq<Literal>, k: int) -> bool
    decreases items, k,
{
    if k <= 0 || k > items.len() {
        true
    } else {
        all_stand_for(objs, base, vals, items, k - 1) && stands_for(objs, base, vals[k - 1], items[k - 1])
    }
}

/// Objects that stay: `b` has those of `a`, but perhaps for an array at one place.
spec fn stay(a: Seq<ObjV>, b: Seq<ObjV>, at: int) -> bool {
    &&& a.len() <= b.len()
    &&& forall|i: int| 0 <= i < a.len() && i != at ==> a[i] == #[trigger] b[i]
}

proof fn lemma_still(a: Seq<ObjV>, b: Seq<ObjV>, at: int, base: int, less: int, v: LitV, lit: Literal)
    requires
        stands_for(a, base, v, lit),
        stay(a, b, at),
        at < base,
        less <= base,
        0 <= at < a.len() ==> a[at] is Array,
    ensures
        stands_for(b, less, v, lit),
    decreases lit, 0int,
{
    match lit {
        Literal::Array(items) => {
            let i = v->Obj_0 as int;
            assert(a[i] == b[i]);
            lemma_all_still(a, b, at, base, less, a[i]->Array_0, items@, items@.len() as int);
        },
        _ => {
            match v {
                LitV::Obj(i) => {
                    if i != at && i < a.len() {
                        assert(a[i as int] == b[i as int]);
                    }
                },
                _ => {},
            }
        },
    }
}

proof fn lemma_all_still(
    a: Seq<ObjV>,
    b: Seq<ObjV>,
    at: int,
    base: int,
    less: int,
    vals: Seq<LitV>,
    items: Seq<Literal>,
    k: int,
)
    requires
        all_stand_for(a, base, vals, items, k),
        0 <= k <= items.len(),
        stay(a, b, at),
        at < base,
        less <= base,
        0 <= at < a.len() ==> a[at] is Array,
    ensures
        all_stand_for(b, less, vals, items, k),
    decreases items, k,
{
    if k > 0 {
        lemma_all_still(a, b, at, base, less, vals, items, k - 1);
        lemma_still(a, b, at, base, less, vals[k - 1], items[k - 1]);
    }
}

proof fn lemma_found_object(objs: Seq<ObjV>, o: ObjV, i: int)
    requires
        0 <= i,
    ensures
        obj_index(objs, o, i) < objs.len() ==> i <= obj_index(objs, o, i) && objs[obj_index(objs, o, i)] == o,
        i <= objs.len() ==> obj_index(objs, o, i) <= objs.len(),
    decreases objs.len() - i,
{
    if i < objs.len() && objs[i] != o {
        lemma_found_object(objs, o, i + 1);
    }
}

proof fn lemma_literal(objs: Seq<ObjV>, lit: Literal)
    ensures
        stands_for(literal_value(objs, lit).1, objs.len() as int, literal_value(objs, lit).0, lit),
        stay(objs, literal_value(objs, lit).1, -1),
    decreases lit, 0int,
{
    match lit {
        Literal::BigInt { negative, digits } => lemma_found_object(objs, ObjV::BigInt(negative, digits@), 0),
        Literal::Float(b) => lemma_found_object(objs, ObjV::Double(b), 0),
        Literal::Char(c) => lemma_found_object(objs, ObjV::Char(c), 0),
        Literal::Str(s) => lemma_found_object(objs, ObjV::Str(s@), 0),
        Literal::Array(items) => {
            let at = objs.len() as int;
            let placed = objs.push(ObjV::Array(Seq::empty()));
            let n = items@.len() as int;
            lemma_literals(placed, items@, n);
            let (vals, rest) = literal_values(placed, items@, n);
            let done = rest.update(at, ObjV::Array(vals));
            assert(rest[at] == placed[at]);
            assert(stay(rest, done, at));
            lemma_all_still(rest, done, at, at + 1, at, vals, items@, n);
            assert forall|i: int| 0 <= i < objs.len() implies objs[i] == #[trigger] done[i] by {
                assert(placed[i] == rest[i]);
            }
        },
        _ => {},
    }
}

proof fn lemma_literals(objs: Seq<ObjV>, items: Seq<Literal>, k: int)
    requires
        0 <= k <= items.len(),
    ensures
        literal_values(objs, items, k).0.len() == k,
        all_stand_for(literal_values(objs, items, k).1, objs.len() as int, literal_values(objs, items, k).0, items, k),
        stay(objs, literal_values(objs, items, k).1, -1),
    decreases items, k,
{
    if k > 0 {
        lemma_literals(objs, items, k - 1);
        let (vals, o1) = literal_values(objs, items, k - 1);
        lemma_literal(o1, items[k - 1]);
        let (v, o2) = literal_value(o1, items[k - 1]);
        let base = objs.len() as int;
        lemma_all_still(o1, o2, -1, base, base, vals, items, k - 1);
        lemma_all_same(o2, base, vals, vals.push(v), items, k - 1);
        lemma_still(o2, o2, -1, o1.len() as int, base, v, items[k - 1]);
        assert forall|i: int| 0 <= i < objs.len() implies objs[i] == #[trigger] o2[i] by {
            assert(objs[i] == o1[i]);
        }
    }
}

proof fn lemma_all_same(objs: Seq<ObjV>, base: int, a: Seq<LitV>, b: Seq<LitV>, items: Seq<Literal>, k: int)
    requires
        all_stand_for(objs, base, a, items, k),
        0 <= k <= items.len(),
        k <= a.len() <= b.len(),
        forall|i: int| 0 <= i < k ==> a[i] == b[i],
    ensures
        all_stand_for(objs, base, b, items, k),
    decreases k,
{
    if k > 0 {
        lemma_all_same(objs, base, a, b, items, k - 1);
    }
}

/// A literal's value stands for the literal, whatever was built before it, and what was built before it
/// stays as it was.
pub proof fn law_literals_are_built(objs: Seq<ObjV>, lit: Literal)
    ensures
        stands_for(literal_value(objs, lit).1, 0, literal_value(objs, lit).0, lit),
        prefix(objs, literal_value(objs, lit).1),
{
    lemma_literal(objs, lit);
    let (v, o) = literal_value(objs, lit);
    lemma_still(o, o, -1, objs.len() as int, 0, v, lit);
}

pub(crate) proof fn lemma_found_entry(lits: Seq<EntryV>, e: EntryV, i: int)
    requires
        0 <= i,
    ensures
        entry_index(lits, e, i) < lits.len() ==> i <= entry_index(lits, e, i) && lits[entry_index(lits, e, i)] == e,
        i <= lits.len() ==> entry_index(lits, e, i) <= lits.len(),
        i <= lits.len() ==> entry_index(lits.push(e), e, i) == entry_index(lits, e, i),
    decreases lits.len() - i,
{
    if i < lits.len() {
        assert(lits.push(e)[i] == lits[i]);
        if lits[i] != e {
            lemma_found_entry(lits, e, i + 1);
        }
    } else if i == lits.len() {
        assert(lits.push(e)[i] == e);
    }
}

/// An entry of the frame is at the place that its instruction names, and stays there.
pub(crate) proof fn lemma_entry(o: Out, e: EntryV)
    requires
        o.err is None,
        o.with_entry(e).lits.len() <= u32::MAX,
    ensures
        (o.entry_at(e) as int) < o.with_entry(e).lits.len(),
        o.with_entry(e).lits[o.entry_at(e) as int] == e,
        prefix(o.lits, o.with_entry(e).lits),
        o.with_entry(e).entry_at(e) == o.entry_at(e),
        o.with_entry(e).with_entry(e) == o.with_entry(e),
{
    lemma_found_entry(o.lits, e, 0);
}

/// A literal leaves itself: nil and the booleans, and small numbers of a byte, by instructions of their
/// own; any other by an entry of the frame that stands for it.
pub proof fn law_literals_leave_themselves(
    cx: Cx,
    in_block: bool,
    h: Seq<(Seq<char>, u8)>,
    sid: u32,
    value: Literal,
    span: Span,
    o: Out,
    w: World,
    k: Mem,
)
    requires
        o.err is None,
        expr(cx, in_block, h, sid, Expr::Lit { value, span }, o).lits.len() <= u32::MAX,
    ensures
        ({
            let p = expr(cx, in_block, h, sid, Expr::Lit { value, span }, o);
            let at = o.code.len() as int;
            &&& p.err is None
            &&& p.code.len() == at + 1
            &&& prefix(o.code, p.code)
            &&& p.ics == o.ics
            &&& match value {
                Literal::Nil => step(w, p, at, k) == Some((at + 1, k.push(Val::Nil))),
                Literal::True => step(w, p, at, k) == Some((at + 1, k.push(Val::True))),
                Literal::False => step(w, p, at, k) == Some((at + 1, k.push(Val::False))),
                Literal::Int(n) => if -128 <= n <= 127 {
                    step(w, p, at, k) == Some((at + 1, k.push(Val::Small(n as int))))
                } else {
                    p.code[at] matches Instr::PushLiteral(i) && i < p.lits.len() && p.lits[i as int] == EntryV::Value(
                        LitV::Smi(n),
                    )
                },
                _ => p.code[at] matches Instr::PushLiteral(i) && i < p.lits.len() && (p.lits[i as int] matches EntryV::Value(
                    v,
                ) && stands_for(p.objs, 0, v, value)),
            }
        }),
{
    match value {
        Literal::Nil | Literal::True | Literal::False => {},
        Literal::Int(n) => {
            if !(-128 <= n <= 127) {
                lemma_entry(o, EntryV::Value(LitV::Smi(n)));
            }
        },
        _ => {
            law_literals_are_built(o.objs, value);
            let (v, objs) = literal_value(o.objs, value);
            lemma_entry(Out { objs, ..o }, EntryV::Value(v));
        },
    }
}

// ── Variables ───────────────────────────────────────────────────────────

/// Instance variables and globals keep what is stored in them.
pub open spec fn keeps_variables(w: World) -> bool {
    &&& keeps_contexts(w)
    &&& forall|i: u8, v: Val, rest: int|
        (#[trigger] (w.load)(Instr::PushInstvar(i), (w.store)(Instr::StoreInstvarPop(i), v, rest))).0 == v
    &&& forall|i: u32, v: Val, rest: int|
        (#[trigger] (w.load)(Instr::PushGlobal(i), (w.store)(Instr::StoreGlobalPop(i), v, rest))).0 == v
}

/// What was assigned to a variable is what is read from it next, wherever the variable lives. The
/// assignment takes the value from the stack; reading puts it there.
pub proof fn law_assigned_is_read(
    cx: Cx,
    h: Seq<(Seq<char>, u8)>,
    sid: u32,
    name: Seq<char>,
    span: Span,
    o: Out,
    w: World,
    k: Mem,
    v: Val,
)
    requires
        o.err is None,
        o.store(cx, h, sid, name, span).err is None,
        o.store(cx, h, sid, name, span).lits.len() <= u32::MAX,
        keeps_variables(w),
        k.temps.len() == 256,
    ensures
        ({
            let p = o.store(cx, h, sid, name, span);
            let q = p.load(cx, h, sid, name, span);
            let at = o.code.len() as int;
            &&& p.code.len() == at + 1
            &&& prefix(o.code, p.code)
            &&& q.err is None
            &&& q.code.len() == at + 2
            &&& prefix(p.code, q.code)
            &&& step(w, q, at, k.push(v)) matches Some((a, l)) && a == at + 1 && l.stack == k.stack && (step(w, q, a, l)
                matches Some((b, n)) && b == at + 2 && n.stack == k.stack.push(v))
        }),
{
    let p = o.store(cx, h, sid, name, span);
    let q = p.load(cx, h, sid, name, span);
    let at = o.code.len() as int;
    assert(k.push(v).pop() =~= k);
    match meaning(cx, h, sid, name, true, o.globals) {
        VarV::Assoc(e) => {
            lemma_entry(o.declare(e), e);
            assert(o.declare(e).entry_at(e) == o.entry_at(e));
            lemma_class_variable(cx.holder.chain@, name, 0);
            if e is Global {
                assert(e == EntryV::Global(name));
                assert(p.globals.contains(name)) by {
                    if !o.globals.contains(name) {
                        assert(o.globals.push(name)[o.globals.len() as int] == name);
                    }
                }
            } else {
                assert(p.globals == o.globals);
            }
            assert(meaning(cx, h, sid, name, false, p.globals) == VarV::Assoc(e));
            assert(p.entry_at(e) == o.entry_at(e));
            assert(q.code[at] == p.code[at]);
            assert(q.code[at] == Instr::StoreGlobalPop(o.entry_at(e)));
            assert(q.code[at + 1] == Instr::PushGlobal(o.entry_at(e)));
        },
        VarV::Captured(depth, slot) => {
            assert(q.code[at] == Instr::StoreCtxTempPop { depth, slot });
            assert(q.code[at + 1] == Instr::PushCtxTemp { depth, slot });
        },
        VarV::InstVar(i) => {
            assert(q.code[at] == Instr::StoreInstvarPop(i));
            assert(q.code[at + 1] == Instr::PushInstvar(i));
        },
        VarV::Local(i) => {
            assert(q.code[at] == Instr::StoreTempPop(i));
            assert(q.code[at + 1] == Instr::PushTemp(i));
        },
        VarV::Unknown => {},
    }
}

/// An assignment leaves the value that it assigns; as a statement it leaves nothing.
pub proof fn law_assignments_leave_their_value(
    cx: Cx,
    in_block: bool,
    h: Seq<(Seq<char>, u8)>,
    sid: u32,
    name: String,
    value: Box<Expr>,
    span: Span,
    o: Out,
    w: World,
    q: Out,
    m: Mem,
    k: Mem,
    v: Val,
)
    requires
        ({
            let e = Expr::Assign { name, value, span };
            let r = expr(cx, in_block, h, sid, *value, o);
            let p = expr(cx, in_block, h, sid, e, o);
            &&& formed(*value)
            &&& p.err is None
            &&& prefix(p.code, q.code)
            &&& goes(w, q, o.code.len() as int, m, r.code.len() as int, k.push(v))
        }),
    ensures
        ({
            let e = Expr::Assign { name, value, span };
            let r = expr(cx, in_block, h, sid, *value, o);
            let p = expr(cx, in_block, h, sid, e, o);
            exists|l: Mem| #[trigger]
                goes(w, q, o.code.len() as int, m, p.code.len() as int, l) && l.stack == k.stack.push(v) && step(
                    w,
                    q,
                    r.code.len() + 1int,
                    k.push(v).push(v),
                ) == Some((p.code.len() as int, l))
        }),
{
    let e = Expr::Assign { name, value, span };
    let r = expr(cx, in_block, h, sid, *value, o);
    let d = r.put(Instr::Dup);
    let p = expr(cx, in_block, h, sid, e, o);
    assert(o.err is None);
    assert(r.err is None);
    let at = r.code.len() as int;
    assert(p == d.store(cx, h, sid, name@, span));
    assert(p.code.len() == at + 2);
    assert(p.code[at] == Instr::Dup);
    assert(p.code[at] == q.code[at]);
    assert(p.code[at + 1] == q.code[at + 1]);
    let k1 = k.push(v);
    let k2 = k1.push(v);
    lemma_one_on(w, q, o.code.len() as int, m, at, k1, at + 1, k2);
    assert(k2.pop() =~= k1);
    let (to, l) = step(w, q, at + 1, k2)->0;
    lemma_one_on(w, q, o.code.len() as int, m, at + 1, k2, at + 2, l);
}

// ── Sends ───────────────────────────────────────────────────────────────

/// The code of arguments, one after the other: `os` holds the code before the first and after each.
pub open spec fn argument_codes(
    cx: Cx,
    in_block: bool,
    h: Seq<(Seq<char>, u8)>,
    sid: u32,
    args: Seq<Expr>,
    os: Seq<Out>,
) -> bool {
    &&& os.len() == args.len() + 1
    &&& forall|i: int| 0 <= i < args.len() ==> #[trigger] os[i + 1] == expr(cx, in_block, h, sid, args[i], os[i])
}

proof fn lemma_arguments(cx: Cx, in_block: bool, h: Seq<(Seq<char>, u8)>, sid: u32, args: Seq<Expr>, os: Seq<Out>, k: int)
    requires
        argument_codes(cx, in_block, h, sid, args, os),
        0 <= k <= args.len(),
    ensures
        exprs(cx, in_block, h, sid, args, k, os[0]) == os[k],
    decreases k,
{
    if k > 0 {
        lemma_arguments(cx, in_block, h, sid, args, os, k - 1);
        assert(os[(k - 1) + 1] == expr(cx, in_block, h, sid, args[k - 1], os[k - 1]));
    }
}

/// The arguments run one after the other.
proof fn lemma_arguments_run(w: World, q: Out, a: int, m: Mem, os: Seq<Out>, ms: Seq<Mem>, k: int)
    requires
        0 <= k < ms.len(),
        ms.len() == os.len(),
        goes(w, q, a, m, os[0].code.len() as int, ms[0]),
        forall|i: int|
            0 <= i < ms.len() - 1 ==> goes(w, q, os[i].code.len() as int, ms[i], #[trigger] os[i + 1].code.len() as int, ms[i
                + 1]),
    ensures
        goes(w, q, a, m, os[k].code.len() as int, ms[k]),
    decreases k,
{
    if k > 0 {
        lemma_arguments_run(w, q, a, m, os, ms, k - 1);
        assert(os[(k - 1) + 1].code.len() >= 0);
        lemma_on(w, q, a, m, os[k - 1].code.len() as int, ms[k - 1], os[k].code.len() as int, ms[k]);
    }
}

proof fn lemma_stacks(s: Seq<Val>, v: Val, vals: Seq<Val>, ms: Seq<Mem>, k: int)
    requires
        ms.len() == vals.len() + 1,
        0 <= k <= vals.len(),
        ms[0].stack == s.push(v),
        forall|i: int| 0 <= i < vals.len() ==> #[trigger] ms[i + 1].stack == ms[i].stack.push(vals[i]),
    ensures
        ms[k].stack == s + (seq![v] + vals.take(k)),
    decreases k,
{
    if k > 0 {
        lemma_stacks(s, v, vals, ms, k - 1);
        assert(ms[(k - 1) + 1].stack == ms[k - 1].stack.push(vals[k - 1]));
        assert(vals.take(k) =~= vals.take(k - 1).push(vals[k - 1]));
        assert(ms[k].stack =~= s + (seq![v] + vals.take(k)));
    } else {
        assert(ms[0].stack =~= s + (seq![v] + vals.take(0)));
    }
}

/// A send that is not dissolved passes its receiver's value and those of its arguments, in their order,
/// to the method that its selector names, in the superclass where it is a send to super, and leaves what
/// that answers in their place.
#[verifier::spinoff_prover]
pub proof fn law_sends_pass_their_arguments(
    cx: Cx,
    in_block: bool,
    h: Seq<(Seq<char>, u8)>,
    sid: u32,
    e: Expr,
    o: Out,
    w: World,
    q: Out,
    m: Mem,
    os: Seq<Out>,
    ms: Seq<Mem>,
    s: Seq<Val>,
    v: Val,
    vals: Seq<Val>,
    x: Val,
    rest: int,
)
    requires
        e matches Expr::Send { receiver, selector, args, is_super, .. } && ({
            let p = expr(cx, in_block, h, sid, e, o);
            &&& o.err is None
            &&& send_positions(selector@, *receiver, args@, is_super) is None
            &&& p.err is None
            &&& p.ics.len() <= u32::MAX
            &&& args@.len() <= u8::MAX
            &&& prefix(p.code, q.code)
            &&& prefix(p.ics, q.ics)
            &&& argument_codes(cx, in_block, h, sid, args@, os)
            &&& os[0] == expr(cx, in_block, h, sid, *receiver, o)
            &&& vals.len() == args@.len()
            &&& ms.len() == os.len()
            &&& goes(w, q, o.code.len() as int, m, os[0].code.len() as int, ms[0])
            &&& ms[0].stack == s.push(v)
            &&& forall|i: int|
                0 <= i < vals.len() ==> goes(
                    w,
                    q,
                    os[i].code.len() as int,
                    ms[i],
                    #[trigger] os[i + 1].code.len() as int,
                    ms[i + 1],
                )
            &&& forall|i: int| 0 <= i < vals.len() ==> #[trigger] ms[i + 1].stack == ms[i].stack.push(vals[i])
            &&& (w.send)(
                SiteV { selector: selector@, argc: args@.len() as u8, super_: is_super },
                seq![v] + vals,
                ms.last().rest,
            ) == Some((x, rest))
        }),
    ensures
        goes(
            w,
            q,
            o.code.len() as int,
            m,
            expr(cx, in_block, h, sid, e, o).code.len() as int,
            Mem { stack: s.push(x), rest, ..ms.last() },
        ),
{
    match e {
        Expr::Send { receiver, selector, args, is_super, .. } => {
            let p = expr(cx, in_block, h, sid, e, o);
            let n = vals.len() as int;
            lemma_arguments(cx, in_block, h, sid, args@, os, n);
            lemma_arguments_run(w, q, o.code.len() as int, m, os, ms, n);
            lemma_stacks(s, v, vals, ms, n);
            assert(vals.take(n) =~= vals);
            let last = os[n];
            assert(p == last.send(selector@, args@.len() as u8, is_super));
            let at = last.code.len() as int;
            let ic = last.ics.len() as int;
            assert(p.code[at] == Instr::Send { ic: ic as u32, super_: is_super });
            assert(q.code[at] == p.code[at]);
            assert(p.ics[ic] == q.ics[ic]);
            let k = ms[n];
            assert(k.stack.skip(k.stack.len() - n - 1) =~= seq![v] + vals);
            assert(k.stack.take(k.stack.len() - n - 1) =~= s);
            let l = Mem { stack: s.push(x), rest, ..k };
            lemma_one_on(w, q, o.code.len() as int, m, at, k, at + 1, l);
        },
        _ => {},
    }
}

/// A cascade sends each of its messages to one receiver: each segment but the last runs on a copy of it,
/// and what it leaves is dropped; the last one runs on the receiver itself and leaves the cascade's
/// value. `os` holds the code before each segment, `ms` the state there.
#[verifier::spinoff_prover]
pub proof fn law_cascades_go_to_one_receiver(
    cx: Cx,
    in_block: bool,
    h: Seq<(Seq<char>, u8)>,
    sid: u32,
    e: Expr,
    o: Out,
    w: World,
    q: Out,
    m: Mem,
    os: Seq<Out>,
    ms: Seq<Mem>,
    ends: Seq<Mem>,
    s: Seq<Val>,
    v: Val,
)
    requires
        e matches Expr::Cascade { receiver, segments, .. } && ({
            let p = expr(cx, in_block, h, sid, e, o);
            let n = segments@.len() as int;
            &&& o.err is None
            &&& n >= 1
            &&& p.err is None
            &&& prefix(p.code, q.code)
            &&& os.len() == n
            &&& ms.len() == n
            &&& ends.len() == n
            &&& os[0] == expr(cx, in_block, h, sid, *receiver, o)
            &&& forall|i: int| 0 <= i < n ==> segment(#[trigger] segments@[i])
            &&& forall|i: int|
                0 <= i < n - 1 ==> #[trigger] os[i + 1] == expr(
                    cx,
                    in_block,
                    h,
                    sid,
                    segments@[i],
                    os[i].put(Instr::Dup),
                ).put(Instr::Pop)
            &&& goes(w, q, o.code.len() as int, m, os[0].code.len() as int, ms[0])
            &&& forall|i: int| 0 <= i < n ==> (#[trigger] ms[i]).stack == s.push(v)
            &&& forall|i: int|
                0 <= i < n - 1 ==> goes(
                    w,
                    q,
                    os[i].code.len() + 1int,
                    (#[trigger] ms[i]).push(v),
                    os[i + 1].code.len() - 1,
                    ends[i],
                ) && ends[i].stack.len() > 0 && ms[i + 1] == ends[i].pop()
            &&& goes(w, q, os[n - 1].code.len() as int, ms[n - 1], p.code.len() as int, ends[n - 1])
        }),
    ensures
        goes(w, q, o.code.len() as int, m, expr(cx, in_block, h, sid, e, o).code.len() as int, ends.last()),
{
    match e {
        Expr::Cascade { receiver, segments, .. } => {
            let n = segments@.len() as int;
            let p = expr(cx, in_block, h, sid, e, o);
            lemma_segments(cx, in_block, h, sid, segments@, os, n - 1);
            assert(p == cascade(cx, in_block, h, sid, segments@, n, os[0]));
            assert(cascade(cx, in_block, h, sid, segments@, n - 1, os[0]) == os[n - 1]);
            assert(p == expr(cx, in_block, h, sid, segments@[n - 1], os[n - 1]));
            lemma_expr_grew(cx, in_block, h, sid, segments@[n - 1], os[n - 1]);
            lemma_segments_run(cx, in_block, h, sid, segments@, w, q, o.code.len() as int, m, os, ms, ends, v, n - 1);
            lemma_on(
                w,
                q,
                o.code.len() as int,
                m,
                os[n - 1].code.len() as int,
                ms[n - 1],
                p.code.len() as int,
                ends[n - 1],
            );
        },
        _ => {},
    }
}

proof fn lemma_segments(cx: Cx, in_block: bool, h: Seq<(Seq<char>, u8)>, sid: u32, es: Seq<Expr>, os: Seq<Out>, k: int)
    requires
        os.len() == es.len(),
        0 <= k < es.len(),
        forall|i: int|
            0 <= i < es.len() - 1 ==> #[trigger] os[i + 1] == expr(cx, in_block, h, sid, es[i], os[i].put(Instr::Dup)).put(
                Instr::Pop,
            ),
    ensures
        cascade(cx, in_block, h, sid, es, k, os[0]) == os[k],
    decreases k,
{
    if k > 0 {
        lemma_segments(cx, in_block, h, sid, es, os, k - 1);
        assert(os[(k - 1) + 1] == expr(cx, in_block, h, sid, es[k - 1], os[k - 1].put(Instr::Dup)).put(Instr::Pop));
    }
}

#[verifier::rlimit(40)]
#[verifier::spinoff_prover]
proof fn lemma_segments_run(
    cx: Cx,
    in_block: bool,
    h: Seq<(Seq<char>, u8)>,
    sid: u32,
    es: Seq<Expr>,
    w: World,
    q: Out,
    a: int,
    m: Mem,
    os: Seq<Out>,
    ms: Seq<Mem>,
    ends: Seq<Mem>,
    v: Val,
    k: int,
)
    requires
        0 <= k < es.len(),
        os.len() == es.len(),
        ms.len() == es.len(),
        ends.len() == es.len(),
        os[k].err is None,
        prefix(os[k].code, q.code),
        forall|i: int| 0 <= i < es.len() ==> segment(#[trigger] es[i]),
        forall|i: int|
            0 <= i < es.len() - 1 ==> #[trigger] os[i + 1] == expr(cx, in_block, h, sid, es[i], os[i].put(Instr::Dup)).put(
                Instr::Pop,
            ),
        goes(w, q, a, m, os[0].code.len() as int, ms[0]),
        forall|i: int| 0 <= i < es.len() ==> (#[trigger] ms[i]).stack.len() > 0 && ms[i].stack.last() == v,
        forall|i: int|
            0 <= i < es.len() - 1 ==> goes(
                w,
                q,
                os[i].code.len() + 1int,
                (#[trigger] ms[i]).push(v),
                os[i + 1].code.len() - 1,
                ends[i],
            ) && ends[i].stack.len() > 0 && ms[i + 1] == ends[i].pop(),
    ensures
        goes(w, q, a, m, os[k].code.len() as int, ms[k]),
    decreases k,
{
    if k > 0 {
        let i = k - 1;
        let d = os[i].put(Instr::Dup);
        let r = expr(cx, in_block, h, sid, es[i], d);
        assert(os[i + 1] == r.put(Instr::Pop));
        assert(r.err is None);
        assert(segment(es[i]));
        lemma_expr_grew(cx, in_block, h, sid, es[i], d);
        assert(os[i].err is None);
        let at = os[i].code.len() as int;
        let end = r.code.len() as int;
        assert(d.code[at] == Instr::Dup);
        assert(d.code[at] == r.code[at]);
        assert(os[k].code[at] == r.code[at]);
        assert(os[k].code[at] == q.code[at]);
        assert(os[k].code[end] == Instr::Pop);
        assert(os[k].code[end] == q.code[end]);
        assert forall|x: int| 0 <= x < os[i].code.len() implies os[i].code[x] == #[trigger] q.code[x] by {
            assert(d.code[x] == os[i].code[x]);
            assert(d.code[x] == r.code[x]);
            assert(os[k].code[x] == r.code[x]);
        }
        assert(prefix(os[i].code, q.code));
        lemma_segments_run(cx, in_block, h, sid, es, w, q, a, m, os, ms, ends, v, i);
        assert(ms[i].stack.last() == v);
        lemma_one_on(w, q, a, m, at, ms[i], at + 1, ms[i].push(v));
        lemma_on(w, q, a, m, at + 1, ms[i].push(v), end, ends[i]);
        lemma_one_on(w, q, a, m, end, ends[i], end + 1, ends[i].pop());
    }
}

// ── Ends ────────────────────────────────────────────────────────────────

/// How a unit ends: a method returns its receiver, behind its last statement; a statement that is
/// executed at once returns its value; a block answers its last value, nil where it has none. A return
/// that is written returns from the method, out of a block too.
pub proof fn law_units_end_in_returns(cx: Cx, kind: BodyKind, sid: u32, es: Seq<Expr>, o: Out)
    requires
        o.err is None,
        body(cx, kind, sid, es, o).err is None,
    ensures
        ({
            let p = body(cx, kind, sid, es, o);
            let n = p.code.len() as int;
            let written = es.len() > 0 && es.last() is Return;
            &&& n > 0
            &&& kind is Method ==> p.code[n - 1] == Instr::ReturnSelf
            &&& kind is DoIt ==> p.code[n - 1] == if es.len() == 0 {
                Instr::ReturnSelf
            } else {
                Instr::ReturnTos
            }
            &&& kind is Block ==> p.code[n - 1] == if written {
                Instr::NlrTos
            } else {
                Instr::BlockReturnTos
            }
            &&& es.len() == 0 && kind is Block ==> p.code == o.code.push(Instr::PushNil).push(Instr::BlockReturnTos)
            &&& es.len() == 0 && kind !is Block ==> p.code == o.code.push(Instr::ReturnSelf)
        }),
{
}

/// A return in the middle of statements: the value, and the instruction that returns it from the method.
pub proof fn law_written_returns(
    cx: Cx,
    in_block: bool,
    h: Seq<(Seq<char>, u8)>,
    sid: u32,
    value: Box<Expr>,
    span: Span,
    o: Out,
)
    requires
        discard(cx, in_block, h, sid, Expr::Return { value, span }, o).err is None,
    ensures
        ({
            let p = discard(cx, in_block, h, sid, Expr::Return { value, span }, o);
            let r = expr(cx, in_block, h, sid, *value, o.line(span.line));
            p.code == r.code.push(
                if in_block {
                    Instr::NlrTos
                } else {
                    Instr::ReturnTos
                },
            )
        }),
{
}

/// Lines are told from the line of the method's head, which is the first.
pub proof fn law_lines_are_counted_from_the_head(line: u32, header: u32)
    requires
        header > 0,
    ensures
        relative_line(line, header) == if line < header {
            1
        } else {
            line - header + 1
        },
{
}

// ── Names ───────────────────────────────────────────────────────────────

proof fn lemma_found_name(names: Seq<Seq<char>>, name: Seq<char>, i: int)
    requires
        0 <= i <= names.len(),
    ensures
        i <= name_index(names, name, i) <= names.len(),
        name_index(names, name, i) < names.len() ==> names[name_index(names, name, i)] == name,
        forall|j: int| i <= j < name_index(names, name, i) ==> #[trigger] names[j] != name,
    decreases names.len() - i,
{
    if i < names.len() && names[i] != name {
        lemma_found_name(names, name, i + 1);
    }
}

/// What a name stands for where no variable of a block or method has it: the instance variable of that
/// name, on the instance side; else the class variable of the nearest class that declares one; else a
/// global there is; else, for an assignment of a statement that is executed at once, a new global, if the
/// name starts with an upper-case letter; else nothing.
pub proof fn law_names_outside_the_method(
    cx: Cx,
    h: Seq<(Seq<char>, u8)>,
    sid: u32,
    name: Seq<char>,
    is_write: bool,
    globals: Seq<Seq<char>>,
)
    requires
        resolution(cx.capture.scopes@, sid, sid, name) is None,
        hoisted(h, name) is None,
        cx.inst_vars@.len() <= 256,
    ensures
        ({
            let r = meaning(cx, h, sid, name, is_write, globals);
            let own = !cx.class_side && exists|i: int| 0 <= i < cx.inst_vars@.len() && (#[trigger] cx.inst_vars@[i])@ == name;
            let declared = |k: int| exists|i: int|
                0 <= i < cx.holder.chain@[k].class_vars@.len() && (#[trigger] cx.holder.chain@[k].class_vars@[i])@ == name;
            &&& own ==> (r matches VarV::InstVar(i) && i < cx.inst_vars@.len() && cx.inst_vars@[i as int]@ == name)
            &&& !own ==> match r {
                VarV::Assoc(EntryV::ClassVar(k, i)) => k < cx.holder.chain@.len() && i
                    < cx.holder.chain@[k as int].class_vars@.len() && cx.holder.chain@[k as int].class_vars@[i as int]@
                    == name && forall|j: int| 0 <= j < k ==> !#[trigger] declared(j),
                VarV::Assoc(EntryV::Global(n)) => n == name && (forall|j: int|
                    0 <= j < cx.holder.chain@.len() ==> !#[trigger] declared(j)) && (globals.contains(name) || (cx.top_level
                    && is_write && name.len() > 0 && upper_case(name[0]))),
                VarV::Unknown => (forall|j: int| 0 <= j < cx.holder.chain@.len() ==> !#[trigger] declared(j))
                    && !globals.contains(name) && !(cx.top_level && is_write && name.len() > 0 && upper_case(name[0])),
                _ => false,
            }
        }),
{
    let names = texts(cx.inst_vars@);
    lemma_found_name(names, name, 0);
    let inst = name_index(names, name, 0);
    if inst < names.len() {
        assert(cx.inst_vars@[inst]@ == names[inst]);
    } else {
        assert forall|i: int| 0 <= i < cx.inst_vars@.len() implies (#[trigger] cx.inst_vars@[i])@ != name by {
            assert(names[i] != name);
        }
    }
    lemma_class_variable(cx.holder.chain@, name, 0);
}

proof fn lemma_class_variable(chain: Seq<KlassVars>, name: Seq<char>, k: int)
    requires
        0 <= k <= chain.len(),
    ensures
        ({
            let declared = |j: int| exists|i: int|
                0 <= i < chain[j].class_vars@.len() && (#[trigger] chain[j].class_vars@[i])@ == name;
            match class_var(chain, name, k) {
                Some(EntryV::ClassVar(c, i)) => k <= c < chain.len() && i < chain[c as int].class_vars@.len()
                    && chain[c as int].class_vars@[i as int]@ == name && forall|j: int| k <= j < c ==> !#[trigger] declared(j),
                Some(_) => false,
                None => forall|j: int| k <= j < chain.len() ==> !#[trigger] declared(j),
            }
        }),
    decreases chain.len() - k,
{
    if k < chain.len() {
        let names = texts(chain[k].class_vars@);
        lemma_found_name(names, name, 0);
        let i = name_index(names, name, 0);
        if i < names.len() {
            assert(chain[k].class_vars@[i]@ == names[i]);
        } else {
            assert forall|i: int| 0 <= i < chain[k].class_vars@.len() implies (#[trigger] chain[k].class_vars@[i])@ != name by {
                assert(names[i] != name);
            }
            lemma_class_variable(chain, name, k + 1);
        }
    }
}

/// The instance variables of a class: those of the classes above it first, its own last.
pub proof fn law_inherited_variables_come_first(chain: Seq<KlassVars>, k: int)
    requires
        0 <= k < chain.len(),
    ensures
        flat_inst_vars(chain, k) == flat_inst_vars(chain, k + 1) + texts(chain[k].inst_vars@),
        flat_inst_vars(chain, chain.len() as int).len() == 0,
{
}

} // verus!
