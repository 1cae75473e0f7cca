//! Brace arrays, on the model of the stack machine.
use vstd::prelude::*;
#[allow(unused_imports)]
use crate::bytecode::Instr;
#[allow(unused_imports)]
use crate::frontend::ast::Expr;
#[allow(unused_imports)]
use crate::frontend::codegen::{elements, entry_index, expr, Cx, EntryV, LitV, Out, SiteV};
#[allow(unused_imports)]
use crate::frontend::control::{goes, lemma_here, lemma_on, lemma_one_on, step, Mem, Val, World};
#[allow(unused_imports)]
use crate::frontend::flow::{formed, grew, lemma_expr_grew, prefix};
#[allow(unused_imports)]
use crate::frontend::values::{lemma_entry, lemma_found_entry};

verus! {

/// A number that the frame holds is pushed as that number.
pub open spec fn knows_constants(w: World, q: Out) -> bool {
    forall|i: u32, rest: int|
        (i as int) < q.lits.len() ==> match q.lits[i as int] {
            EntryV::Value(LitV::Smi(v)) => #[trigger] (w.load)(Instr::PushLiteral(i), rest) == (Val::Small(v as int), rest),
            _ => true,
        }
}

/// A number is pushed by one instruction.
proof fn lemma_number_pushed(o: Out, v: i64, w: World, q: Out, k: Mem)
    requires
        o.err is None,
        o.number(v).lits.len() <= u32::MAX,
        prefix(o.number(v).code, q.code),
        prefix(o.number(v).lits, q.lits),
        knows_constants(w, q),
    ensures
        o.number(v).err is None,
        o.number(v).code.len() == o.code.len() + 1,
        prefix(o.code, o.number(v).code),
        prefix(o.lits, o.number(v).lits),
        o.number(v).ics == o.ics,
        step(w, q, o.code.len() as int, k) == Some((o.code.len() + 1int, k.push(Val::Small(v as int)))),
{
    let p = o.number(v);
    let at = o.code.len() as int;
    if -128 <= v <= 127 {
        assert(p.code[at] == Instr::PushSmi(v as i8));
        assert(p.code[at] == q.code[at]);
    } else {
        let e = EntryV::Value(LitV::Smi(v));
        lemma_entry(o, e);
        let i = o.entry_at(e);
        assert(p.code[at] == Instr::PushLiteral(i));
        assert(p.code[at] == q.code[at]);
        assert(p.lits[i as int] == q.lits[i as int]);
        let (x, r) = (w.load)(Instr::PushLiteral(i), k.rest);
        assert(x == Val::Small(v as int) && r == k.rest);
        assert(Mem { rest: r, ..k.push(x) } =~= k.push(Val::Small(v as int)));
    }
}

/// The code of a brace array's elements, one after the other: `os` holds the code before the first and
/// after each.
pub open spec fn element_codes(
    cx: Cx,
    in_block: bool,
    h: Seq<(Seq<char>, u8)>,
    sid: u32,
    elems: Seq<Expr>,
    os: Seq<Out>,
) -> bool {
    &&& os.len() == elems.len() + 1
    &&& forall|i: int|
        0 <= i < elems.len() ==> #[trigger] os[i + 1] == expr(
            cx,
            in_block,
            h,
            sid,
            elems[i],
            os[i].put(Instr::Dup).number((i + 1) as i64),
        ).send("at:put:"@, 2, false).put(Instr::Pop)
}

proof fn lemma_elements(cx: Cx, in_block: bool, h: Seq<(Seq<char>, u8)>, sid: u32, es: Seq<Expr>, os: Seq<Out>, k: int)
    requires
        element_codes(cx, in_block, h, sid, es, os),
        0 <= k <= es.len(),
    ensures
        elements(cx, in_block, h, sid, es, k, os[0]) == os[k],
    decreases k,
{
    if k > 0 {
        lemma_elements(cx, in_block, h, sid, es, os, k - 1);
        let i = k - 1;
        assert(os[i + 1] == expr(cx, in_block, h, sid, es[i], os[i].put(Instr::Dup).number((i + 1) as i64)).send(
            "at:put:"@,
            2,
            false,
        ).put(Instr::Pop));
    }
}

/// One element: the array's copy, the element's number and its value are sent `at:put:`, and what that
/// answers is dropped.
#[verifier::spinoff_prover]
proof fn lemma_element_put(
    cx: Cx,
    in_block: bool,
    h: Seq<(Seq<char>, u8)>,
    sid: u32,
    e: Expr,
    i: int,
    w: World,
    q: Out,
    a: int,
    m: Mem,
    o: Out,
    next: Out,
    k: Mem,
    end: Mem,
    s: Seq<Val>,
    arr: Val,
    v: Val,
    x: Val,
    rest: int,
)
    requires
        formed(e),
        0 <= i < 0x1_0000_0000,
        next == expr(cx, in_block, h, sid, e, o.put(Instr::Dup).number((i + 1) as i64)).send("at:put:"@, 2, false).put(
            Instr::Pop,
        ),
        next.err is None,
        o.err is None,
        next.lits.len() <= u32::MAX,
        next.ics.len() <= u32::MAX,
        prefix(next.code, q.code),
        prefix(next.ics, q.ics),
        prefix(next.lits, q.lits),
        knows_constants(w, q),
        goes(w, q, a, m, o.code.len() as int, k),
        k.stack == s.push(arr),
        goes(w, q, o.code.len() + 2int, k.push(arr).push(Val::Small(i + 1)), next.code.len() - 2, end),
        end.stack == s.push(arr).push(arr).push(Val::Small(i + 1)).push(v),
        (w.send)(
            SiteV { selector: "at:put:"@, argc: 2, super_: false },
            seq![arr, Val::Small(i + 1), v],
            end.rest,
        ) == Some((x, rest)),
    ensures
        goes(w, q, a, m, next.code.len() as int, Mem { stack: s.push(arr), rest, ..end }),
        prefix(o.code, q.code),
        prefix(o.ics, q.ics),
        prefix(o.lits, q.lits),
        o.lits.len() <= u32::MAX,
        o.ics.len() <= u32::MAX,
{
    let d = o.put(Instr::Dup);
    let b = d.number((i + 1) as i64);
    let r = expr(cx, in_block, h, sid, e, b);
    let sent = r.send("at:put:"@, 2, false);
    assert(r.err is None);
    lemma_expr_grew(cx, in_block, h, sid, e, b);
    assert forall|y: int| 0 <= y < r.code.len() implies r.code[y] == #[trigger] q.code[y] by {
        assert(next.code[y] == r.code[y]);
    }
    assert forall|y: int| 0 <= y < r.ics.len() implies r.ics[y] == #[trigger] q.ics[y] by {
        assert(next.ics[y] == r.ics[y]);
    }
    assert(prefix(b.code, q.code)) by {
        assert forall|y: int| 0 <= y < b.code.len() implies b.code[y] == #[trigger] q.code[y] by {
            assert(b.code[y] == r.code[y]);
        }
    }
    assert(prefix(b.lits, q.lits)) by {
        assert forall|y: int| 0 <= y < b.lits.len() implies b.lits[y] == #[trigger] q.lits[y] by {
            assert(b.lits[y] == r.lits[y]);
        }
    }
    let at = o.code.len() as int;
    let k1 = k.push(arr);
    lemma_number_pushed(d, (i + 1) as i64, w, q, k1);
    assert(d.code[at] == Instr::Dup);
    assert(b.code[at] == d.code[at]);
    assert(b.code[at] == q.code[at]);
    assert(k.stack.last() == arr);
    lemma_one_on(w, q, a, m, at, k, at + 1, k1);
    let k2 = k1.push(Val::Small(i + 1));
    lemma_one_on(w, q, a, m, at + 1, k1, at + 2, k2);
    let re = r.code.len() as int;
    lemma_on(w, q, a, m, at + 2, k2, re, end);
    let ic = r.ics.len() as int;
    assert(next.code[re] == Instr::Send { ic: ic as u32, super_: false });
    assert(next.code[re] == q.code[re]);
    assert(next.ics[ic] == q.ics[ic]);
    assert(end.stack.skip(end.stack.len() - 3) =~= seq![arr, Val::Small(i + 1), v]);
    assert(end.stack.take(end.stack.len() - 3) =~= s.push(arr));
    let l1 = Mem { stack: s.push(arr).push(x), rest, ..end };
    lemma_one_on(w, q, a, m, re, end, re + 1, l1);
    assert(next.code[re + 1] == Instr::Pop);
    assert(next.code[re + 1] == q.code[re + 1]);
    let l2 = Mem { stack: s.push(arr), rest, ..end };
    assert(l1.pop() =~= l2);
    lemma_one_on(w, q, a, m, re + 1, l1, re + 2, l2);
    assert forall|y: int| 0 <= y < o.code.len() implies o.code[y] == #[trigger] q.code[y] by {
        assert(d.code[y] == o.code[y]);
        assert(b.code[y] == d.code[y]);
        assert(b.code[y] == q.code[y]);
    }
    assert forall|y: int| 0 <= y < o.ics.len() implies o.ics[y] == #[trigger] q.ics[y] by {
        assert(b.ics[y] == r.ics[y]);
    }
    assert forall|y: int| 0 <= y < o.lits.len() implies o.lits[y] == #[trigger] q.lits[y] by {
        assert(d.lits[y] == b.lits[y]);
    }
}

proof fn lemma_elements_run(
    cx: Cx,
    in_block: bool,
    h: Seq<(Seq<char>, u8)>,
    sid: u32,
    es: Seq<Expr>,
    w: World,
    q: Out,
    a: int,
    m: Mem,
    os: Seq<Out>,
    ms: Seq<Mem>,
    ends: Seq<Mem>,
    s: Seq<Val>,
    arr: Val,
    vals: Seq<Val>,
    xs: Seq<Val>,
    k: int,
)
    requires
        0 <= k <= es.len() < 0x1_0000_0000,
        element_codes(cx, in_block, h, sid, es, os),
        forall|i: int| 0 <= i < es.len() ==> formed(#[trigger] es[i]),
        forall|i: int| 0 <= i <= es.len() ==> (#[trigger] os[i]).err is None,
        os[k].lits.len() <= u32::MAX,
        os[k].ics.len() <= u32::MAX,
        prefix(os[k].code, q.code),
        prefix(os[k].ics, q.ics),
        prefix(os[k].lits, q.lits),
        knows_constants(w, q),
        elements_put(w, q, es.len() as int, os, ms, ends, s, arr, vals, xs),
        goes(w, q, a, m, os[0].code.len() as int, ms[0]),
    ensures
        goes(w, q, a, m, os[k].code.len() as int, ms[k]),
    decreases k,
{
    if k > 0 {
        let i = k - 1;
        assert(os[i + 1] == expr(cx, in_block, h, sid, es[i], os[i].put(Instr::Dup).number((i + 1) as i64)).send(
            "at:put:"@,
            2,
            false,
        ).put(Instr::Pop));
        assert(os[i].err is None);
        assert(os[i + 1].err is None);
        assert(formed(es[i]));
        assert(ms[i].stack == s.push(arr));
        let x = xs[i];
        lemma_element_prefix(cx, in_block, h, sid, es[i], i, os[i], os[k], q);
        lemma_elements_run(cx, in_block, h, sid, es, w, q, a, m, os, ms, ends, s, arr, vals, xs, i);
        lemma_element_put(
            cx,
            in_block,
            h,
            sid,
            es[i],
            i,
            w,
            q,
            a,
            m,
            os[i],
            os[k],
            ms[i],
            ends[i],
            s,
            arr,
            vals[i],
            x,
            ms[k].rest,
        );
    }
}

proof fn lemma_element_prefix(cx: Cx, in_block: bool, h: Seq<(Seq<char>, u8)>, sid: u32, e: Expr, i: int, o: Out, next: Out, q: Out)
    requires
        formed(e),
        0 <= i < 0x1_0000_0000,
        next == expr(cx, in_block, h, sid, e, o.put(Instr::Dup).number((i + 1) as i64)).send("at:put:"@, 2, false).put(
            Instr::Pop,
        ),
        next.err is None,
        o.err is None,
        next.lits.len() <= u32::MAX,
        next.ics.len() <= u32::MAX,
        prefix(next.code, q.code),
        prefix(next.ics, q.ics),
        prefix(next.lits, q.lits),
    ensures
        prefix(o.code, q.code),
        prefix(o.ics, q.ics),
        prefix(o.lits, q.lits),
        o.lits.len() <= u32::MAX,
        o.ics.len() <= u32::MAX,
{
    let d = o.put(Instr::Dup);
    let b = d.number((i + 1) as i64);
    let r = expr(cx, in_block, h, sid, e, b);
    lemma_expr_grew(cx, in_block, h, sid, e, b);
    if !(-128 <= i + 1 <= 127) {
        lemma_entry(d, EntryV::Value(LitV::Smi((i + 1) as i64)));
    }
    assert forall|y: int| 0 <= y < o.code.len() implies o.code[y] == #[trigger] q.code[y] by {
        assert(d.code[y] == o.code[y]);
        assert(b.code[y] == d.code[y]);
        assert(r.code[y] == b.code[y]);
        assert(next.code[y] == r.code[y]);
    }
    assert forall|y: int| 0 <= y < o.ics.len() implies o.ics[y] == #[trigger] q.ics[y] by {
        assert(b.ics[y] == r.ics[y]);
        assert(next.ics[y] == r.ics[y]);
    }
    assert forall|y: int| 0 <= y < o.lits.len() implies o.lits[y] == #[trigger] q.lits[y] by {
        assert(d.lits[y] == b.lits[y]);
        assert(b.lits[y] == r.lits[y]);
        assert(next.lits[y] == r.lits[y]);
    }
}

/// What the elements do: each leaves its value above the array's copy and its number; `at:put:` takes the
/// three.
pub open spec fn elements_put(
    w: World,
    q: Out,
    n: int,
    os: Seq<Out>,
    ms: Seq<Mem>,
    ends: Seq<Mem>,
    s: Seq<Val>,
    arr: Val,
    vals: Seq<Val>,
    xs: Seq<Val>,
) -> bool {
    &&& ms.len() == n + 1
    &&& ends.len() == n
    &&& vals.len() == n
    &&& xs.len() == n
    &&& forall|i: int| 0 <= i <= n ==> (#[trigger] ms[i]).stack == s.push(arr)
    &&& forall|i: int|
        0 <= i < n ==> {
            &&& goes(
                w,
                q,
                os[i].code.len() + 2int,
                ms[i].push(arr).push(Val::Small(i + 1)),
                os[i + 1].code.len() - 2,
                #[trigger] ends[i],
            )
            &&& ends[i].stack == s.push(arr).push(arr).push(Val::Small(i + 1)).push(vals[i])
            &&& (w.send)(
                SiteV { selector: "at:put:"@, argc: 2, super_: false },
                seq![arr, Val::Small(i + 1), vals[i]],
                ends[i].rest,
            ) == Some((xs[i], ms[i + 1].rest))
            &&& ms[i + 1] == (Mem { stack: s.push(arr), rest: ms[i + 1].rest, ..ends[i] })
        }
}

proof fn lemma_elements_start(
    cx: Cx,
    in_block: bool,
    h: Seq<(Seq<char>, u8)>,
    sid: u32,
    es: Seq<Expr>,
    q: Out,
    os: Seq<Out>,
    k: int,
)
    requires
        0 <= k <= es.len() < 0x1_0000_0000,
        element_codes(cx, in_block, h, sid, es, os),
        forall|i: int| 0 <= i < es.len() ==> formed(#[trigger] es[i]),
        forall|i: int| 0 <= i <= es.len() ==> (#[trigger] os[i]).err is None,
        os[k].lits.len() <= u32::MAX,
        os[k].ics.len() <= u32::MAX,
        prefix(os[k].code, q.code),
        prefix(os[k].ics, q.ics),
        prefix(os[k].lits, q.lits),
    ensures
        prefix(os[0].code, q.code),
        prefix(os[0].ics, q.ics),
        prefix(os[0].lits, q.lits),
        os[0].lits.len() <= u32::MAX,
        os[0].ics.len() <= u32::MAX,
    decreases k,
{
    if k > 0 {
        let i = k - 1;
        assert(os[i + 1] == expr(cx, in_block, h, sid, es[i], os[i].put(Instr::Dup).number((i + 1) as i64)).send(
            "at:put:"@,
            2,
            false,
        ).put(Instr::Pop));
        assert(os[i].err is None);
        assert(os[i + 1].err is None);
        assert(formed(es[i]));
        lemma_element_prefix(cx, in_block, h, sid, es[i], i, os[i], os[k], q);
        lemma_elements_start(cx, in_block, h, sid, es, q, os, i);
    }
}

/// The class of arrays is the value that the frame's entry for it yields.
pub open spec fn knows_array_class(w: World, q: Out, c: Val) -> bool {
    forall|i: u32, rest: int|
        (i as int) < q.lits.len() && q.lits[i as int] == EntryV::ArrayClass ==> #[trigger] (w.load)(
            Instr::PushLiteral(i),
            rest,
        ) == (c, rest)
}

/// The start of a brace array: the class is sent `new:` with a number.
#[verifier::spinoff_prover]
proof fn lemma_array_made(o: Out, n: i64, w: World, q: Out, m: Mem, c: Val, arr: Val, rest: int)
    requires
        o.err is None,
        ({
            let p = o.push_entry(EntryV::ArrayClass).number(n).send("new:"@, 1, false);
            &&& p.lits.len() <= u32::MAX
            &&& p.ics.len() <= u32::MAX
            &&& prefix(p.code, q.code)
            &&& prefix(p.ics, q.ics)
            &&& prefix(p.lits, q.lits)
        }),
        knows_constants(w, q),
        knows_array_class(w, q, c),
        (w.send)(
            SiteV { selector: "new:"@, argc: 1, super_: false },
            seq![c, Val::Small(n as int)],
            m.rest,
        ) == Some((arr, rest)),
    ensures
        goes(
            w,
            q,
            o.code.len() as int,
            m,
            o.push_entry(EntryV::ArrayClass).number(n).send("new:"@, 1, false).code.len() as int,
            Mem { stack: m.stack.push(arr), rest, ..m },
        ),
{
    let e = EntryV::ArrayClass;
    let at = o.code.len() as int;
    let b = o.push_entry(e);
    let r = b.number(n);
    let p = r.send("new:"@, 1, false);
    if !(-128 <= n <= 127) {
        lemma_found_entry(b.lits, EntryV::Value(LitV::Smi(n)), 0);
    }
    lemma_entry(o, e);
    assert forall|y: int| 0 <= y < r.code.len() implies r.code[y] == #[trigger] q.code[y] by {
        assert(p.code[y] == r.code[y]);
    }
    let k1 = m.push(c);
    lemma_number_pushed(b, n, w, q, k1);
    let i = o.entry_at(e);
    assert(b.code[at] == Instr::PushLiteral(i));
    assert(b.code[at] == r.code[at]);
    assert(r.code[at] == q.code[at]);
    assert(b.lits[i as int] == r.lits[i as int]);
    assert(r.lits[i as int] == q.lits[i as int]);
    assert((w.load)(Instr::PushLiteral(i), m.rest) == (c, m.rest));
    assert(Mem { rest: m.rest, ..m.push(c) } =~= k1);
    lemma_here(w, q, at, m);
    lemma_one_on(w, q, at, m, at, m, at + 1, k1);
    let k2 = k1.push(Val::Small(n as int));
    lemma_one_on(w, q, at, m, at + 1, k1, at + 2, k2);
    let ic = r.ics.len() as int;
    assert(p.code[at + 2] == Instr::Send { ic: ic as u32, super_: false });
    assert(p.code[at + 2] == q.code[at + 2]);
    assert(p.ics[ic] == q.ics[ic]);
    assert(k2.stack.skip(k2.stack.len() - 2) =~= seq![c, Val::Small(n as int)]);
    assert(k2.stack.take(k2.stack.len() - 2) =~= m.stack);
    lemma_one_on(w, q, at, m, at + 2, k2, at + 3, Mem { stack: m.stack.push(arr), rest, ..m });
}

/// A brace array is made of as many elements as are written, and each element's value is put at its
/// number, from one on, in their order; the array is left.
#[verifier::spinoff_prover]
pub proof fn law_brace_arrays(
    cx: Cx,
    in_block: bool,
    h: Seq<(Seq<char>, u8)>,
    sid: u32,
    e: Expr,
    o: Out,
    w: World,
    q: Out,
    m: Mem,
    os: Seq<Out>,
    ms: Seq<Mem>,
    ends: Seq<Mem>,
    c: Val,
    arr: Val,
    vals: Seq<Val>,
    xs: Seq<Val>,
)
    requires
        e matches Expr::DynArray { elems, .. } && ({
            let p = expr(cx, in_block, h, sid, e, o);
            let n = elems@.len() as int;
            &&& o.err is None
            &&& n < 0x1_0000_0000
            &&& forall|i: int| 0 <= i < n ==> formed(#[trigger] elems@[i])
            &&& p.lits.len() <= u32::MAX
            &&& p.ics.len() <= u32::MAX
            &&& prefix(p.code, q.code)
            &&& prefix(p.ics, q.ics)
            &&& prefix(p.lits, q.lits)
            &&& element_codes(cx, in_block, h, sid, elems@, os)
            &&& forall|i: int| 0 <= i <= n ==> (#[trigger] os[i]).err is None
            &&& os[0] == o.push_entry(EntryV::ArrayClass).number(n as i64).send("new:"@, 1, false)
            &&& knows_constants(w, q)
            &&& knows_array_class(w, q, c)
            &&& (w.send)(
                SiteV { selector: "new:"@, argc: 1, super_: false },
                seq![c, Val::Small(n)],
                m.rest,
            ) == Some((arr, ms[0].rest))
            &&& ms[0] == (Mem { stack: m.stack.push(arr), rest: ms[0].rest, ..m })
            &&& elements_put(w, q, n, os, ms, ends, m.stack, arr, vals, xs)
        }),
    ensures
        goes(w, q, o.code.len() as int, m, expr(cx, in_block, h, sid, e, o).code.len() as int, ms.last()),
        ms.last().stack == m.stack.push(arr),
{
    match e {
        Expr::DynArray { elems, .. } => {
            let n = elems@.len() as int;
            lemma_elements(cx, in_block, h, sid, elems@, os, n);
            assert(expr(cx, in_block, h, sid, e, o) == os[n]);
            assert(ms[n].stack == m.stack.push(arr));
            lemma_elements_start(cx, in_block, h, sid, elems@, q, os, n);
            lemma_array_made(o, n as i64, w, q, m, c, arr, ms[0].rest);
            lemma_elements_run(
                cx,
                in_block,
                h,
                sid,
                elems@,
                w,
                q,
                o.code.len() as int,
                m,
                os,
                ms,
                ends,
                m.stack,
                arr,
                vals,
                xs,
                n,
            );
        },
        _ => {},
    }
}

} // verus!
