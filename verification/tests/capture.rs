use macvm::frontend::ast::{BlockNode, Expr, MethodNode, MethodSignature};
use macvm::frontend::capture::{analyze, inline_block_positions, BlockPos, Resolved};
use macvm::frontend::lexer::Span;

fn sp() -> Span {
    Span { line: 0, col: 0 }
}

fn var(name: &str) -> Expr {
    Expr::Var { name: name.to_string(), span: sp() }
}

fn block(params: &[&str], temps: &[&str], body: Vec<Expr>) -> Expr {
    Expr::Block(Box::new(BlockNode {
        params: params.iter().map(|s| s.to_string()).collect(),
        temps: temps.iter().map(|s| s.to_string()).collect(),
        body,
        span: sp(),
        scope_id: 0,
    }))
}

fn scope_at(body: &[Expr], path: &[usize]) -> u32 {
    let mut cur = body;
    let mut found = None;
    for &i in path {
        match &cur[i] {
            Expr::Block(b) => {
                found = Some(b.scope_id);
                cur = &b.body;
            }
            _ => panic!("scope_at: expected a block at this path position"),
        }
    }
    found.expect("scope_at: empty path")
}

fn method(params: &[&str], temps: &[&str], body: Vec<Expr>) -> MethodNode {
    MethodNode {
        type_sig: MethodSignature::default(),
        pattern_selector: "m".to_string(),
        params: params.iter().map(|s| s.to_string()).collect(),
        primitive: None,
        ffi: None,
        temps: temps.iter().map(|s| s.to_string()).collect(),
        body,
        class_side: false,
        span: sp(),
    }
}

#[test]
fn capture_basic() {
    let blk = block(&[], &[], vec![var("t")]);
    let mut m = method(&[], &["t"], vec![blk]);
    let info = analyze(&mut m);
    let bscope = scope_at(&m.body, &[0]);

    assert!(info.scopes[0].has_ctx);
    assert_eq!(info.scopes[0].nctx, 1);
    let (_, slot) = &info.scopes[0].vars[0];
    assert!(slot.captured);
    assert_eq!(slot.ctx_slot, Some(0));
    assert_eq!(info.resolve(bscope, "t"), Some(Resolved::Captured { depth: 0, ctx_slot: 0 }));
}

#[test]
fn capture_none() {
    let mut m = method(&[], &["t"], vec![var("t")]);
    let info = analyze(&mut m);
    assert!(!info.scopes[0].has_ctx);
    assert_eq!(info.scopes[0].frame_temp_count, 1);
    let (_, slot) = &info.scopes[0].vars[0];
    assert!(!slot.captured);
    assert_eq!(slot.frame_slot, Some(0));
    assert_eq!(info.resolve(0, "t"), Some(Resolved::Local(0)));
}

#[test]
fn capture_param() {
    let blk = block(&[], &[], vec![var("p")]);
    let mut m = method(&["p"], &[], vec![blk]);
    let info = analyze(&mut m);
    let (_, slot) = &info.scopes[0].vars[0];
    assert!(slot.captured);
    assert_eq!(slot.frame_slot, Some(0));
    assert_eq!(slot.ctx_slot, Some(0));
}

#[test]
fn capture_depth3() {
    let b3 = block(&[], &[], vec![var("mt"), var("t1"), var("t2")]);
    let b2 = block(&[], &["t2"], vec![b3]);
    let b1 = block(&[], &["t1"], vec![b2]);
    let mut m = method(&[], &["mt"], vec![b1]);
    let info = analyze(&mut m);
    let b3_scope = scope_at(&m.body, &[0, 0, 0]);
    assert_eq!(info.resolve(b3_scope, "t2"), Some(Resolved::Captured { depth: 0, ctx_slot: 0 }));
    assert_eq!(info.resolve(b3_scope, "t1"), Some(Resolved::Captured { depth: 1, ctx_slot: 0 }));
    assert_eq!(info.resolve(b3_scope, "mt"), Some(Resolved::Captured { depth: 2, ctx_slot: 0 }));
}

#[test]
fn capture_skip_level() {
    let d = block(&[], &[], vec![var("mt"), var("ct")]);
    let c = block(&[], &["ct"], vec![d]);
    let b = block(&[], &[], vec![c]);
    let mut m = method(&[], &["mt"], vec![b]);
    let info = analyze(&mut m);
    let d_scope = scope_at(&m.body, &[0, 0, 0]);
    let b_scope = scope_at(&m.body, &[0]);
    assert!(!info.scopes[b_scope as usize].has_ctx);
    assert!(info.scopes[b_scope as usize].captures_ctx);
    assert_eq!(info.resolve(d_scope, "mt"), Some(Resolved::Captured { depth: 1, ctx_slot: 0 }));
}

#[test]
fn capture_slot_order() {
    let blk = block(&[], &[], vec![var("t2"), var("t1"), var("p2"), var("p1")]);
    let mut m = method(&["p1", "p2"], &["t1", "t2"], vec![blk]);
    let info = analyze(&mut m);
    let bscope = scope_at(&m.body, &[0]);
    assert_eq!(info.resolve(bscope, "p1"), Some(Resolved::Captured { depth: 0, ctx_slot: 0 }));
    assert_eq!(info.resolve(bscope, "p2"), Some(Resolved::Captured { depth: 0, ctx_slot: 1 }));
    assert_eq!(info.resolve(bscope, "t1"), Some(Resolved::Captured { depth: 0, ctx_slot: 2 }));
    assert_eq!(info.resolve(bscope, "t2"), Some(Resolved::Captured { depth: 0, ctx_slot: 3 }));
}

#[test]
fn unknown_names_do_not_resolve() {
    let mut m = method(&[], &["t"], vec![var("u")]);
    let info = analyze(&mut m);
    assert_eq!(info.resolve(0, "u"), None);
}

#[test]
fn dissolved_blocks_open_no_scope() {
    // x ifTrue: [ t ]
    let send = Expr::Send {
        receiver: Box::new(var("x")),
        selector: "ifTrue:".to_string(),
        args: vec![block(&[], &[], vec![var("t")])],
        is_super: false,
        span: sp(),
    };
    let mut m = method(&[], &["x", "t"], vec![send]);
    let info = analyze(&mut m);
    assert_eq!(info.scopes.len(), 1);
    assert!(!info.scopes[0].has_ctx);
    let args = vec![block(&[], &[], vec![])];
    assert_eq!(inline_block_positions("ifTrue:", &var("x"), &args), Some(vec![BlockPos::Arg(0)]));
    assert_eq!(inline_block_positions("foo:", &var("x"), &args), None);
}

fn send(receiver: Expr, selector: &str, args: Vec<Expr>, is_super: bool) -> Expr {
    Expr::Send { receiver: Box::new(receiver), selector: selector.to_string(), args, is_super, span: sp() }
}

#[test]
fn a_loop_whose_variable_escapes_is_a_real_send() {
    // 1 to: n do: [:i | super ifTrue: [i]] -- a send to the superclass dissolves nothing
    let to_super = send(Expr::SelfRef(sp()), "ifTrue:", vec![block(&[], &[], vec![var("i")])], true);
    let args = vec![var("n"), block(&["i"], &[], vec![to_super])];
    assert_eq!(inline_block_positions("to:do:", &var("k"), &args), None);

    // ... self ifTrue: [i] -- dissolved, so the variable stays in its scope
    let to_self = send(Expr::SelfRef(sp()), "ifTrue:", vec![block(&[], &[], vec![var("i")])], false);
    let args = vec![var("n"), block(&["i"], &[], vec![to_self])];
    assert_eq!(inline_block_positions("to:do:", &var("k"), &args), Some(vec![BlockPos::Arg(1)]));

    // ... super ifTrue: [n] -- a nested block, but not of the loop variable
    let other = send(Expr::SelfRef(sp()), "ifTrue:", vec![block(&[], &[], vec![var("n")])], true);
    let args = vec![var("n"), block(&["i"], &[], vec![other])];
    assert_eq!(inline_block_positions("to:do:", &var("k"), &args), Some(vec![BlockPos::Arg(1)]));

    // ... #() do: [i := 0] -- an assignment counts as a use
    let assigned = block(&[], &[], vec![Expr::Assign { name: "i".to_string(), value: Box::new(var("n")), span: sp() }]);
    let args = vec![var("n"), block(&["i"], &[], vec![send(var("n"), "do:", vec![assigned], false)])];
    assert_eq!(inline_block_positions("to:do:", &var("k"), &args), None);
}

#[test]
fn the_variable_of_a_dissolved_loop_is_not_captured() {
    // k to: n do: [:i | self ifTrue: [i]. super foo: [n]]
    let body = vec![
        send(Expr::SelfRef(sp()), "ifTrue:", vec![block(&[], &[], vec![var("i")])], false),
        send(Expr::SelfRef(sp()), "foo:", vec![block(&[], &[], vec![var("n")])], true),
    ];
    let looped = send(var("k"), "to:do:", vec![var("n"), block(&["i"], &[], body)], false);
    let mut m = method(&["k", "n"], &[], vec![looped]);
    let info = analyze(&mut m);
    assert_eq!(info.scopes.len(), 2);
    let captured: Vec<(&str, bool)> = info.scopes[0].vars.iter().map(|(n, s)| (n.as_str(), s.captured)).collect();
    assert_eq!(captured, vec![("k", false), ("n", true), ("i", false)]);
    assert!(matches!(info.resolve(0, "i"), Some(Resolved::Local(_))));

    // k to: n do: [:i | super ifTrue: [i]] -- a send: each round has a scope of its own
    let body = vec![send(Expr::SelfRef(sp()), "ifTrue:", vec![block(&[], &[], vec![var("i")])], true)];
    let looped = send(var("k"), "to:do:", vec![var("n"), block(&["i"], &[], body)], false);
    let mut m = method(&["k", "n"], &[], vec![looped]);
    let info = analyze(&mut m);
    assert_eq!(info.scopes.len(), 3);
    assert_eq!(info.resolve(2, "i"), Some(Resolved::Captured { depth: 0, ctx_slot: 0 }));
    assert_eq!(info.scopes[0].nctx, 0);
    assert_eq!(info.scopes[1].nctx, 1);
}
