//! How a compiled unit starts: its arguments reach the homes of its parameters before its first
//! statement runs.
use vstd::prelude::*;
#[allow(unused_imports)]
use crate::bytecode::Instr;
#[allow(unused_imports)]
use crate::frontend::ast::{BlockNode, Expr, MethodNode};
#[allow(unused_imports)]
use crate::frontend::capture::{
    capture_of, dissolves, flags_of, hops, info_of, law_walk_goes_on, method_scope, names_of, reaches, relays, resolution,
    send_positions, set_before, slot_at, texts, var_index, walk, walk_args, walk_at, walk_list, walk_method, BlockPos, Names,
    Resolved, ScopeInfo, VarSlot, Walk,
};
#[allow(unused_imports)]
use crate::frontend::codegen::{
    block_literal, body, built, entry_moves, fresh, hoisted, meaning, method_out, method_unit, over_limit, prologue, sum,
    BodyKind, Cx, Out, UnitV, VarV,
};
#[allow(unused_imports)]
use crate::frontend::control::{goes, lemma_here, lemma_one_on, step, steps, Mem, Val, World};
#[allow(unused_imports)]
use crate::frontend::flow::{formed_body, grew, lemma_body_grew, prefix};
#[allow(unused_imports)]
use crate::frontend::lexer::Span;

verus! {

/// A context keeps what is stored in a slot, until something else is stored there.
pub open spec fn keeps_contexts(w: World) -> bool {
    forall|d: u8, i: u8, v: Val, rest: int, e: u8, j: u8|
        (#[trigger] (w.load)(
            Instr::PushCtxTemp { depth: e, slot: j },
            (w.store)(Instr::StoreCtxTempPop { depth: d, slot: i }, v, rest),
        )).0 == if d == e && i == j {
            v
        } else {
            (w.load)(Instr::PushCtxTemp { depth: e, slot: j }, rest).0
        }
}

/// Whether reading a name, as the code there reads it, yields a value.
pub open spec fn reads_as(cx: Cx, sid: u32, o: Out, name: Seq<char>, w: World, k: Mem, v: Val) -> bool {
    forall|span: Span|
        #![trigger o.load(cx, Seq::empty(), sid, name, span)]
        {
            let r = o.load(cx, Seq::empty(), sid, name, span);
            &&& r.err is None
            &&& r.code.len() == o.code.len() + 1
            &&& step(w, r, o.code.len() as int, k) matches Some((at, l)) && at == r.code.len() && l.stack == k.stack.push(v)
        }
}

/// Whether a unit comes to its first statement with each parameter reading as the argument passed for
/// it. Of parameters with one name the first counts.
pub open spec fn starts_well(
    cx: Cx,
    kind: BodyKind,
    sid: u32,
    params: Seq<Seq<char>>,
    es: Seq<Expr>,
    p: Out,
    w: World,
    m: Mem,
) -> bool {
    exists|o: Out, k: Mem|
        #![trigger body(cx, kind, sid, es, o), goes(w, p, 0, m, o.code.len() as int, k)]
        {
            &&& p == body(cx, kind, sid, es, o)
            &&& o.err is None
            &&& grew(o, p)
            &&& goes(w, p, 0, m, o.code.len() as int, k)
            &&& k.stack == m.stack
            &&& k.temps == m.temps
            &&& forall|i: int|
                0 <= i < params.len() && (forall|j: int| 0 <= j < i ==> #[trigger] params[j] != params[i]) ==> reads_as(
                    cx,
                    sid,
                    o,
                    #[trigger] params[i],
                    w,
                    k,
                    m.temps[i],
                )
        }
}

proof fn lemma_set_grows(flags: Seq<bool>, i: int, k: int)
    requires
        0 <= i <= k,
    ensures
        set_before(flags, i) <= set_before(flags, k),
        i < k && flags[i] ==> set_before(flags, i) < set_before(flags, k),
    decreases k - i,
{
    if i < k {
        lemma_set_grows(flags, i, k - 1);
        lemma_set_grows(flags, k - 1, k - 1);
    }
}

proof fn lemma_var_index(vars: Seq<(String, VarSlot)>, name: Seq<char>, i: int, at: int)
    requires
        0 <= i <= at < vars.len(),
        vars[at].0@ == name,
        forall|j: int| i <= j < at ==> (#[trigger] vars[j]).0@ != name,
    ensures
        var_index(vars, name, i) == at,
    decreases at - i,
{
    if i < at {
        assert(vars[i].0@ != name);
        lemma_var_index(vars, name, i + 1, at);
    }
}

/// The moves at a unit's start: every captured parameter so far is in its context slot.
proof fn lemma_moves(info: ScopeInfo, flags: Seq<bool>, w: World, q: Out, o: Out, m: Mem, k: int) -> (rest: int)
    requires
        0 <= k <= info.argc <= info.vars@.len(),
        flags.len() == info.vars@.len(),
        forall|i: int| 0 <= i < flags.len() ==> (#[trigger] info.vars@[i]).1 == slot_at(flags, info.argc as nat, i),
        set_before(flags, flags.len() as int) <= 255,
        info.argc <= 255,
        keeps_contexts(w),
        o.err is None,
        o.code.len() == 0,
        prefix(prologue(info, k, o).code, q.code),
        prologue(info, k, o).err is None,
    ensures
        goes(w, q, 0, m, prologue(info, k, o).code.len() as int, Mem { rest, ..m }),
        forall|i: int|
            0 <= i < k && #[trigger] flags[i] ==> (w.load)(
                Instr::PushCtxTemp { depth: 0, slot: set_before(flags, i) as u8 },
                rest,
            ).0 == m.temps[i],
    decreases k,
{
    if k == 0 {
        lemma_here(w, q, 0, m);
        m.rest
    } else {
        let prev = prologue(info, k - 1, o);
        let slot = info.vars@[k - 1].1;
        assert(slot == slot_at(flags, info.argc as nat, k - 1));
        if slot.captured {
            let at = prev.code.len() as int;
            let now = prologue(info, k, o);
            assert(prev.err is None);
            assert(now.code[at] == Instr::PushTemp((k - 1) as u8));
            lemma_set_grows(flags, k - 1, flags.len() as int);
            let c = set_before(flags, k - 1) as u8;
            assert(now.code[at + 1] == Instr::StoreCtxTempPop { depth: 0, slot: c });
            assert(now.code[at] == q.code[at]);
            assert(now.code[at + 1] == q.code[at + 1]);
            assert(prefix(prev.code, q.code)) by {
                assert forall|i: int| 0 <= i < prev.code.len() implies prev.code[i] == q.code[i] by {
                    assert(now.code[i] == prev.code[i]);
                }
            }
            let r = lemma_moves(info, flags, w, q, o, m, k - 1);
            let m1 = Mem { rest: r, ..m };
            let v = m.temps[k - 1];
            let rest = (w.store)(Instr::StoreCtxTempPop { depth: 0, slot: c }, v, r);
            let m2 = m1.push(v);
            lemma_one_on(w, q, 0, m, at, m1, at + 1, m2);
            assert(m2.pop() =~= m1);
            lemma_one_on(w, q, 0, m, at + 1, m2, at + 2, Mem { rest, ..m });
            assert forall|i: int| 0 <= i < k && #[trigger] flags[i] implies (w.load)(
                Instr::PushCtxTemp { depth: 0, slot: set_before(flags, i) as u8 },
                rest,
            ).0 == m.temps[i] by {
                lemma_set_grows(flags, i, k - 1);
                if i < k - 1 {
                    assert(set_before(flags, i) as u8 != c);
                }
            }
            rest
        } else {
            lemma_moves(info, flags, w, q, o, m, k - 1)
        }
    }
}

/// A unit whose scope record is right starts well.
proof fn lemma_starts(
    cx: Cx,
    kind: BodyKind,
    sid: u32,
    n: Names,
    flags: Seq<bool>,
    relay: bool,
    params: Seq<Seq<char>>,
    es: Seq<Expr>,
    start: Out,
    w: World,
    m: Mem,
)
    requires
        sid < cx.capture.scopes@.len(),
        info_of(cx.capture.scopes@[sid as int], n, flags, relay),
        flags.len() == n.names.len(),
        n.argc == params.len() <= n.names.len(),
        params.len() <= 255,
        cx.capture.scopes@[sid as int].nctx <= 255,
        forall|i: int| 0 <= i < params.len() ==> n.names[i] == #[trigger] params[i],
        formed_body(es, es.len() as int),
        start.err is None,
        start.code.len() == 0,
        body(cx, kind, sid, es, entry_moves(cx.capture.scopes@[sid as int], start)).err is None,
        entry_moves(cx.capture.scopes@[sid as int], start).err is None,
        keeps_contexts(w),
    ensures
        starts_well(
            cx,
            kind,
            sid,
            params,
            es,
            body(cx, kind, sid, es, entry_moves(cx.capture.scopes@[sid as int], start)),
            w,
            m,
        ),
{
    let info = cx.capture.scopes@[sid as int];
    let o = entry_moves(info, start);
    let p = body(cx, kind, sid, es, o);
    lemma_body_grew(cx, kind, sid, es, o);
    let argc = params.len() as int;
    let rest = if info.has_ctx {
        lemma_moves(info, flags, w, p, start, m, argc)
    } else {
        lemma_here(w, p, 0, m);
        m.rest
    };
    let k = Mem { rest, ..m };
    assert forall|i: int|
        0 <= i < params.len() && (forall|j: int| 0 <= j < i ==> #[trigger] params[j] != params[i]) implies reads_as(
        cx,
        sid,
        o,
        #[trigger] params[i],
        w,
        k,
        m.temps[i],
    ) by {
        let name = params[i];
        let vars = info.vars@;
        assert(vars[i].0@ == n.names[i]);
        assert forall|j: int| 0 <= j < i implies (#[trigger] vars[j]).0@ != name by {
            assert(vars[j].0@ == n.names[j] && n.names[j] == params[j]);
        }
        lemma_var_index(vars, name, 0, i);
        assert(vars[i].1 == slot_at(flags, n.argc, i));
        lemma_set_grows(flags, i, flags.len() as int);
        assert(hops(cx.capture.scopes@, sid, sid) == 0);
        let h = Seq::<(Seq<char>, u8)>::empty();
        assert(hoisted(h, name) is None);
        if flags[i] {
            let c = set_before(flags, i) as u8;
            assert(meaning(cx, h, sid, name, false, o.globals) == VarV::Captured(0, c));
            assert((w.load)(Instr::PushCtxTemp { depth: 0, slot: c }, rest).0 == m.temps[i]);
        } else {
            assert(meaning(cx, h, sid, name, false, o.globals) == VarV::Local(i as u8));
        }
    }
    assert(k.stack == m.stack && k.temps == m.temps);
}

// ── Scopes keep their parameters ────────────────────────────────────────

/// The scopes there are keep their parents and their numbers of parameters.
pub open spec fn same_scopes(a: Walk, b: Walk) -> bool {
    &&& a.scopes.len() <= b.scopes.len()
    &&& forall|i: int|
        0 <= i < a.scopes.len() ==> (#[trigger] b.scopes[i]).argc == a.scopes[i].argc && b.scopes[i].parent
            == a.scopes[i].parent && b.scopes[i].is_method == a.scopes[i].is_method
}

proof fn lemma_same_scopes(a: Walk, b: Walk, c: Walk)
    requires
        same_scopes(a, b),
        same_scopes(b, c),
    ensures
        same_scopes(a, c),
{
    assert forall|i: int| 0 <= i < a.scopes.len() implies (#[trigger] c.scopes[i]).argc == a.scopes[i].argc
        && c.scopes[i].parent == a.scopes[i].parent && c.scopes[i].is_method == a.scopes[i].is_method by {
        assert(b.scopes[i].argc == a.scopes[i].argc);
    }
}

proof fn lemma_walk_scopes(e: Expr, sid: u32, w: Walk)
    ensures
        same_scopes(w, walk(e, sid, w)),
    decreases e, 1int, 0int,
{
    match e {
        Expr::Assign { name, value, .. } => {
            lemma_walk_scopes(*value, sid, w.used(sid, name@));
            lemma_same_scopes(w, w.used(sid, name@), walk(e, sid, w));
        },
        Expr::Send { receiver, selector, args, is_super, .. } => {
            let p = send_positions(selector@, *receiver, args@, is_super);
            let d = dissolves(p, BlockPos::Receiver);
            let w1 = walk_at(*receiver, d, sid, w);
            lemma_walk_scopes_at(*receiver, d, sid, w);
            lemma_walk_scopes_args(args@, p, sid, w1, args@.len() as int);
            lemma_same_scopes(w, w1, walk(e, sid, w));
        },
        Expr::Cascade { receiver, segments, .. } => {
            let w1 = walk(*receiver, sid, w);
            lemma_walk_scopes(*receiver, sid, w);
            lemma_walk_scopes_list(segments@, sid, w1, segments@.len() as int);
            lemma_same_scopes(w, w1, walk(e, sid, w));
        },
        Expr::DynArray { elems, .. } => {
            lemma_walk_scopes_list(elems@, sid, w, elems@.len() as int);
        },
        Expr::Return { value, .. } => {
            lemma_walk_scopes(*value, sid, w);
        },
        Expr::Block(b) => {
            let w1 = w.opened(sid, *b);
            lemma_walk_scopes_list(b.body@, w.scopes.len() as u32, w1, b.body@.len() as int);
            assert(same_scopes(w, w1));
            lemma_same_scopes(w, w1, walk(e, sid, w));
        },
        _ => {},
    }
}

proof fn lemma_walk_scopes_at(e: Expr, dissolved: bool, sid: u32, w: Walk)
    ensures
        same_scopes(w, walk_at(e, dissolved, sid, w)),
    decreases e, 2int, 0int,
{
    if dissolved {
        match e {
            Expr::Block(b) => {
                let w1 = w.absorbed(sid, *b);
                lemma_walk_scopes_list(b.body@, sid, w1, b.body@.len() as int);
                assert(same_scopes(w, w1));
                lemma_same_scopes(w, w1, walk_at(e, dissolved, sid, w));
            },
            _ => {},
        }
    } else {
        lemma_walk_scopes(e, sid, w);
    }
}

proof fn lemma_walk_scopes_args(es: Seq<Expr>, p: Option<Seq<BlockPos>>, sid: u32, w: Walk, k: int)
    ensures
        same_scopes(w, walk_args(es, p, sid, w, k)),
    decreases es, k, 0int,
{
    if 0 < k <= es.len() {
        let w1 = walk_args(es, p, sid, w, k - 1);
        lemma_walk_scopes_args(es, p, sid, w, k - 1);
        lemma_walk_scopes_at(es[k - 1], dissolves(p, BlockPos::Arg((k - 1) as usize)), sid, w1);
        lemma_same_scopes(w, w1, walk_args(es, p, sid, w, k));
    }
}

proof fn lemma_walk_scopes_list(es: Seq<Expr>, sid: u32, w: Walk, k: int)
    ensures
        same_scopes(w, walk_list(es, sid, w, k)),
    decreases es, k, 0int,
{
    if 0 < k <= es.len() {
        let w1 = walk_list(es, sid, w, k - 1);
        lemma_walk_scopes_list(es, sid, w, k - 1);
        lemma_walk_scopes(es[k - 1], sid, w1);
        lemma_same_scopes(w, w1, walk_list(es, sid, w, k));
    }
}

// ── Units ───────────────────────────────────────────────────────────────

/// A compiled method comes to its first statement with every argument in the home of its parameter:
/// where a block captures the parameter, in the context, from which the block reads it too, else in the
/// frame.
pub proof fn law_method_arguments_arrive(cx: Cx, m: MethodNode, globals: Seq<Seq<char>>, w: World, k: Mem)
    requires
        capture_of(cx.capture, walk_method(m)),
        formed_body(m.body@, m.body@.len() as int),
        method_out(cx, m, globals).err is None,
        cx.holder.limits.argc_max <= 255,
        cx.holder.limits.nctx_max <= 255,
        keeps_contexts(w),
    ensures
        starts_well(
            cx,
            if cx.top_level {
                BodyKind::DoIt
            } else {
                BodyKind::Method
            },
            0,
            texts(m.params@),
            m.body@,
            method_out(cx, m, globals),
            w,
            k,
        ),
        method_unit(cx, m, method_out(cx, m, globals)).code == method_out(cx, m, globals).code,
        method_unit(cx, m, method_out(cx, m, globals)).argc == m.params@.len(),
{
    let w0 = method_scope(m);
    let wk = walk_method(m);
    lemma_walk_scopes_list(m.body@, 0, w0, m.body@.len() as int);
    law_walk_goes_on(m.body@, 0, w0, m.body@.len() as int);
    let n = wk.scopes[0];
    assert(w0.scopes[0].names.is_prefix_of(n.names));
    assert(n.argc == w0.scopes[0].argc);
    let params = texts(m.params@);
    let names = params + texts(m.temps@);
    assert forall|i: int| 0 <= i < params.len() implies n.names[i] == #[trigger] params[i] by {
        assert(names[i] == params[i]);
    }
    let info = cx.capture.scopes@[0u32 as int];
    assert(info_of(info, n, flags_of(wk, 0), relays(wk, 0)));
    let start = fresh(sum(info.frame_temp_count, m.params@.len() as usize), globals);
    let kind = if cx.top_level {
        BodyKind::DoIt
    } else {
        BodyKind::Method
    };
    let o = entry_moves(info, start);
    assert(method_out(cx, m, globals) == body(cx, kind, 0, m.body@, o));
    lemma_moves_do_not_fail(info, start);
    lemma_starts(cx, kind, 0, n, flags_of(wk, 0), relays(wk, 0), params, m.body@, start, w, k);
}

proof fn lemma_moves_do_not_fail(info: ScopeInfo, o: Out)
    requires
        o.err is None,
    ensures
        entry_moves(info, o).err is None,
{
    if info.has_ctx {
        lemma_prologue_does_not_fail(
            info,
            if info.argc <= info.vars@.len() {
                info.argc as int
            } else {
                info.vars@.len() as int
            },
            o,
        );
    }
}

proof fn lemma_prologue_does_not_fail(info: ScopeInfo, k: int, o: Out)
    requires
        o.err is None,
    ensures
        prologue(info, k, o).err is None,
    decreases k,
{
    if k > 0 {
        lemma_prologue_does_not_fail(info, k - 1, o);
    }
}

/// So does a compiled block. Its scope record is the one that the analysis left for it: `n` holds the
/// names of its scope, its parameters first.
pub proof fn law_block_arguments_arrive(
    cx: Cx,
    b: BlockNode,
    o: Out,
    n: Names,
    flags: Seq<bool>,
    relay: bool,
    w: World,
    k: Mem,
)
    requires
        b.scope_id < cx.capture.scopes@.len(),
        info_of(cx.capture.scopes@[b.scope_id as int], n, flags, relay),
        flags.len() == n.names.len(),
        n.argc == b.params@.len(),
        names_of(b).is_prefix_of(n.names),
        formed_body(b.body@, b.body@.len() as int),
        o.err is None,
        block_literal(cx, b, o).err is None,
        cx.holder.limits.argc_max <= 255,
        cx.holder.limits.nctx_max <= 255,
        keeps_contexts(w),
    ensures
        exists|p: Out|
            #[trigger] starts_well(cx, BodyKind::Block, b.scope_id, texts(b.params@), b.body@, p, w, k) && ({
                let u = block_literal(cx, b, o).blocks[o.blocks.len() as int];
                &&& block_literal(cx, b, o).blocks.len() == o.blocks.len() + 1
                &&& u.code == p.code
                &&& u.argc == b.params@.len()
                &&& u.is_block
                &&& u.has_ctx == (n.names.len() > 0 && set_before(flags, n.names.len() as int) > 0)
                &&& u.nctx == set_before(flags, n.names.len() as int)
            }),
{
    let info = cx.capture.scopes@[b.scope_id as int];
    let argc = b.params@.len() as usize;
    let start = fresh(sum(info.frame_temp_count, argc), o.globals);
    let p = body(cx, BodyKind::Block, b.scope_id, b.body@, entry_moves(info, start));
    let params = texts(b.params@);
    assert forall|i: int| 0 <= i < params.len() implies n.names[i] == #[trigger] params[i] by {
        assert(names_of(b)[i] == params[i]);
    }
    lemma_moves_do_not_fail(info, start);
    lemma_starts(cx, BodyKind::Block, b.scope_id, n, flags, relay, params, b.body@, start, w, k);
}

// ── Depths ──────────────────────────────────────────────────────────────

/// The scopes whose contexts are linked, from the innermost one around a scope outwards: a scope with a
/// context links it to the one around it; a scope without one passes that on.
pub open spec fn context_chain(scopes: Seq<ScopeInfo>, sid: u32) -> Seq<u32>
    decreases sid,
{
    if sid >= scopes.len() {
        Seq::empty()
    } else {
        (if scopes[sid as int].has_ctx {
            seq![sid]
        } else {
            Seq::empty()
        }) + (match scopes[sid as int].parent {
            Some(p) => if p < sid {
                context_chain(scopes, p)
            } else {
                Seq::empty()
            },
            None => Seq::empty(),
        })
    }
}

proof fn lemma_depth(scopes: Seq<ScopeInfo>, from: u32, to: u32)
    requires
        reaches(scopes, from, to),
        to < scopes.len(),
        scopes[to as int].has_ctx,
    ensures
        from < scopes.len() ==> hops(scopes, from, to) < context_chain(scopes, from).len() && context_chain(
            scopes,
            from,
        )[hops(scopes, from, to) as int] == to,
        from < scopes.len() ==> hops(scopes, from, to) <= from - to,
        to <= from,
    decreases from,
{
    if from != to && from < scopes.len() {
        let p = scopes[from as int].parent->0;
        lemma_depth(scopes, p, to);
    }
}

/// A captured variable is found at its depth: as many links from the context in force as the depth says
/// lead to the context of the scope that declares it, where its slot holds it. The scope is the innermost
/// one around that declares the name.
pub proof fn law_captured_variables_are_found(scopes: Seq<ScopeInfo>, from: u32, sid: u32, name: Seq<char>)
    requires
        scopes.len() <= 256,
        from < scopes.len(),
        reaches(scopes, from, sid),
        sid < scopes.len(),
        forall|i: int, v: int|
            0 <= i < scopes.len() && 0 <= v < scopes[i].vars@.len() && (#[trigger] scopes[i].vars@[v]).1.captured
                ==> scopes[i].has_ctx && (scopes[i].vars@[v].1.ctx_slot matches Some(c) && c < 256),
        resolution(scopes, from, sid, name) is Some,
    ensures
        resolution(scopes, from, sid, name) matches Some(Resolved::Captured { depth, ctx_slot }) ==> ({
            let chain = context_chain(scopes, from);
            &&& depth < chain.len()
            &&& chain[depth as int] < scopes.len()
            &&& exists|v: int|
                0 <= v < scopes[chain[depth as int] as int].vars@.len() && (#[trigger] scopes[chain[depth as int] as int].vars@[v]).0@
                    == name && scopes[chain[depth as int] as int].vars@[v].1.ctx_slot == Some(ctx_slot as usize)
        }),
    decreases sid,
{
    let vars = scopes[sid as int].vars@;
    let i = var_index(vars, name, 0);
    lemma_index_found(vars, name, 0);
    if i < vars.len() {
        if vars[i].1.captured {
            lemma_depth(scopes, from, sid);
            assert(vars[i].0@ == name);
        }
    } else {
        let p = scopes[sid as int].parent->0;
        lemma_reaches_up(scopes, from, sid, p);
        law_captured_variables_are_found(scopes, from, p, name);
    }
}

proof fn lemma_index_found(vars: Seq<(String, VarSlot)>, name: Seq<char>, i: int)
    requires
        0 <= i <= vars.len(),
    ensures
        i <= var_index(vars, name, i) <= vars.len(),
        var_index(vars, name, i) < vars.len() ==> vars[var_index(vars, name, i)].0@ == name,
    decreases vars.len() - i,
{
    if i < vars.len() && vars[i].0@ != name {
        lemma_index_found(vars, name, i + 1);
    }
}

proof fn lemma_reaches_up(scopes: Seq<ScopeInfo>, from: u32, to: u32, p: u32)
    requires
        reaches(scopes, from, to),
        to < scopes.len(),
        scopes[to as int].parent == Some(p),
        p < to,
    ensures
        reaches(scopes, from, p),
    decreases from,
{
    if from != to {
        lemma_reaches_up(scopes, scopes[from as int].parent->0, to, p);
    } else {
        assert(reaches(scopes, p, p));
    }
}

} // verus!
