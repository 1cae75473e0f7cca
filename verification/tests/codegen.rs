use std::cell::RefCell;
use std::collections::HashMap;
use std::rc::Rc;

use macvm::bytecode::Instr;
use macvm::frontend::ast::{BlockNode, Expr, FfiPragma, Literal, MethodNode, MethodSignature};
use macvm::frontend::codegen::{
    build_literal_value, compile_doit, compile_method, find_class_var, flatten_inst_vars, CompiledMethod, DescSlot,
    Entry, Holder, KlassVars, LitObj, LitRef, MethodLimits,
};
use macvm::frontend::lexer::{int_lit_magnitude, Span};

// ── Trees ───────────────────────────────────────────────────────────────

fn sp() -> Span {
    Span { line: 0, col: 0 }
}

fn var(name: &str) -> Expr {
    Expr::Var { name: name.to_string(), span: sp() }
}

fn lit(value: Literal) -> Expr {
    Expr::Lit { value, span: sp() }
}

fn num(v: i64) -> Expr {
    lit(Literal::Int(v))
}

fn assign(name: &str, value: Expr) -> Expr {
    Expr::Assign { name: name.to_string(), value: Box::new(value), span: sp() }
}

fn ret(value: Expr) -> Expr {
    Expr::Return { value: Box::new(value), span: sp() }
}

fn send(receiver: Expr, selector: &str, args: Vec<Expr>) -> Expr {
    Expr::Send { receiver: Box::new(receiver), selector: selector.to_string(), args, is_super: false, span: sp() }
}

fn block(params: &[&str], temps: &[&str], body: Vec<Expr>) -> Expr {
    Expr::Block(Box::new(BlockNode {
        params: params.iter().map(|s| s.to_string()).collect(),
        temps: temps.iter().map(|s| s.to_string()).collect(),
        body,
        span: sp(),
        scope_id: 0,
    }))
}

fn method(selector: &str, params: &[&str], temps: &[&str], body: Vec<Expr>) -> MethodNode {
    MethodNode {
        pattern_selector: selector.to_string(),
        params: params.iter().map(|s| s.to_string()).collect(),
        primitive: None,
        ffi: None,
        temps: temps.iter().map(|s| s.to_string()).collect(),
        body,
        class_side: false,
        span: sp(),
        type_sig: MethodSignature::default(),
    }
}

const FFI_PRIMITIVE: i64 = 255;

fn holder(inst_vars: &[&str]) -> Holder {
    Holder {
        chain: vec![KlassVars { inst_vars: inst_vars.iter().map(|s| s.to_string()).collect(), class_vars: vec![] }],
        limits: MethodLimits {
            argc_max: 15,
            ntemps_max: 255,
            nctx_max: 255,
            primitive_args_max: 8,
            ffi_primitive: FFI_PRIMITIVE,
        },
    }
}

// ── A machine to run what comes out ─────────────────────────────────────

#[derive(Clone)]
enum Val<'a> {
    Nil,
    Bool(bool),
    Smi(i64),
    Symbol(String),
    Str(String),
    Big(bool, Vec<u8>),
    Array(Rc<RefCell<Vec<Val<'a>>>>),
    ArrayClass,
    Closure(&'a CompiledMethod, Box<Val<'a>>, Option<Rc<Ctx<'a>>>),
}

struct Ctx<'a> {
    slots: RefCell<Vec<Val<'a>>>,
    parent: Option<Rc<Ctx<'a>>>,
}

struct Machine<'a> {
    globals: RefCell<HashMap<String, Val<'a>>>,
    inst_vars: RefCell<Vec<Val<'a>>>,
}

enum End<'a> {
    Value(Val<'a>),
    Return(Val<'a>),
}

impl<'a> Machine<'a> {
    fn new(inst_vars: Vec<Val<'a>>) -> Machine<'a> {
        Machine { globals: RefCell::new(HashMap::new()), inst_vars: RefCell::new(inst_vars) }
    }

    fn value(&self, unit: &'a CompiledMethod, r: &LitRef) -> Val<'a> {
        match r {
            LitRef::Smi(v) => Val::Smi(*v),
            LitRef::Nil => Val::Nil,
            LitRef::True => Val::Bool(true),
            LitRef::False => Val::Bool(false),
            LitRef::Symbol(s) => Val::Symbol(s.clone()),
            LitRef::Obj(i) => match &unit.objects[*i] {
                LitObj::Str(s) => Val::Str(s.clone()),
                LitObj::BigInt { negative, digits } => Val::Big(*negative, digits.clone()),
                LitObj::Array(v) => {
                    Val::Array(Rc::new(RefCell::new(v.iter().map(|r| self.value(unit, r)).collect())))
                }
                other => panic!("literal {other:?}"),
            },
        }
    }

    fn send(&self, selector: &str, mut args: Vec<Val<'a>>) -> Val<'a> {
        let receiver = args.remove(0);
        match (receiver, selector) {
            (Val::Smi(a), "+") => Val::Smi(a + smi(&args[0])),
            (Val::Smi(a), "<=") => Val::Bool(a <= smi(&args[0])),
            (Val::Smi(a), ">") => Val::Bool(a > smi(&args[0])),
            (v, "==") => Val::Bool(matches!((v, &args[0]), (Val::Nil, Val::Nil))),
            (Val::ArrayClass, "new:") => {
                Val::Array(Rc::new(RefCell::new(vec![Val::Nil; smi(&args[0]) as usize])))
            }
            (Val::Array(v), "at:put:") => {
                let at = smi(&args[0]) as usize;
                v.borrow_mut()[at - 1] = args[1].clone();
                args[1].clone()
            }
            (Val::Closure(unit, receiver, around), _) if selector.starts_with("value") => {
                match self.run(unit, *receiver, args, around) {
                    End::Value(v) => v,
                    End::Return(v) => v,
                }
            }
            (_, other) => panic!("send {other}"),
        }
    }

    fn run(&self, unit: &'a CompiledMethod, receiver: Val<'a>, args: Vec<Val<'a>>, around: Option<Rc<Ctx<'a>>>) -> End<'a> {
        assert_eq!(args.len(), unit.argc);
        let mut temps = args;
        temps.resize(unit.argc + unit.ntemps, Val::Nil);
        let ctx = if unit.has_ctx {
            Some(Rc::new(Ctx { slots: RefCell::new(vec![Val::Nil; unit.nctx]), parent: around }))
        } else {
            around
        };
        let walk = |depth: u8| {
            let mut c = ctx.clone().unwrap();
            for _ in 0..depth {
                c = c.parent.clone().unwrap();
            }
            c
        };
        let global = |i: u32| match &unit.literals[i as usize] {
            Entry::Global(n) => n.clone(),
            other => panic!("global {other:?}"),
        };
        let mut stack: Vec<Val<'a>> = Vec::new();
        let mut at = 0usize;
        loop {
            let here = unit.code[at];
            at += 1;
            match here {
                Instr::PushSelf => stack.push(receiver.clone()),
                Instr::PushNil => stack.push(Val::Nil),
                Instr::PushTrue => stack.push(Val::Bool(true)),
                Instr::PushFalse => stack.push(Val::Bool(false)),
                Instr::PushSmi(v) => stack.push(Val::Smi(v as i64)),
                Instr::PushLiteral(i) => stack.push(match &unit.literals[i as usize] {
                    Entry::Value(r) => self.value(unit, r),
                    Entry::ArrayClass => Val::ArrayClass,
                    other => panic!("literal {other:?}"),
                }),
                Instr::PushTemp(t) => stack.push(temps[t as usize].clone()),
                Instr::PushInstvar(i) => stack.push(self.inst_vars.borrow()[i as usize].clone()),
                Instr::PushGlobal(i) => {
                    let v = self.globals.borrow().get(&global(i)).cloned().unwrap_or(Val::Nil);
                    stack.push(v);
                }
                Instr::PushCtxTemp { depth, slot } => {
                    let v = walk(depth).slots.borrow()[slot as usize].clone();
                    stack.push(v);
                }
                Instr::StoreTempPop(t) => temps[t as usize] = stack.pop().unwrap(),
                Instr::StoreInstvarPop(i) => self.inst_vars.borrow_mut()[i as usize] = stack.pop().unwrap(),
                Instr::StoreGlobalPop(i) => {
                    self.globals.borrow_mut().insert(global(i), stack.pop().unwrap());
                }
                Instr::StoreCtxTempPop { depth, slot } => {
                    walk(depth).slots.borrow_mut()[slot as usize] = stack.pop().unwrap();
                }
                Instr::PushClosure { lit, ncopied } => {
                    assert_eq!(ncopied, 0);
                    let b = match &unit.literals[lit as usize] {
                        Entry::Block(b) => &unit.blocks[*b],
                        other => panic!("block {other:?}"),
                    };
                    let around = if b.captures_ctx { ctx.clone() } else { None };
                    stack.push(Val::Closure(b, Box::new(receiver.clone()), around));
                }
                Instr::Dup => {
                    let v = stack.last().unwrap().clone();
                    stack.push(v);
                }
                Instr::Pop => {
                    stack.pop().unwrap();
                }
                Instr::Send { ic, .. } => {
                    let site = &unit.ics[ic as usize];
                    let args = stack.split_off(stack.len() - site.argc as usize - 1);
                    stack.push(self.send(&site.selector, args));
                }
                Instr::JumpFwd(t) => {
                    assert!(t >= at);
                    at = t;
                }
                Instr::JumpBack(t) => {
                    assert!(t < at);
                    at = t;
                }
                Instr::BrTrueFwd(t) => {
                    if truth(&stack.pop().unwrap()) {
                        at = t;
                    }
                }
                Instr::BrFalseFwd(t) => {
                    if !truth(&stack.pop().unwrap()) {
                        at = t;
                    }
                }
                Instr::ReturnTos | Instr::BlockReturnTos => {
                    let v = stack.pop().unwrap();
                    assert!(stack.is_empty(), "the stack is as deep as at the start");
                    return End::Value(v);
                }
                Instr::ReturnSelf => {
                    assert!(stack.is_empty(), "the stack is as deep as at the start");
                    return End::Value(receiver);
                }
                Instr::NlrTos => return End::Return(stack.pop().unwrap()),
            }
        }
    }
}

fn smi(v: &Val) -> i64 {
    match v {
        Val::Smi(n) => *n,
        _ => panic!("not a number"),
    }
}

fn truth(v: &Val) -> bool {
    match v {
        Val::Bool(b) => *b,
        _ => panic!("not a boolean"),
    }
}

fn compile_top(stmt: Expr, globals: &mut Vec<String>) -> CompiledMethod {
    compile_doit(&holder(&[]), stmt, globals).expect("compile")
}

fn run_unit(unit: &CompiledMethod) -> i64 {
    let m = Machine::new(vec![]);
    match m.run(unit, Val::Nil, vec![], None) {
        End::Value(v) => smi(&v),
        End::Return(v) => smi(&v),
    }
}

fn run_top(stmt: Expr) -> i64 {
    run_unit(&compile_top(stmt, &mut Vec::new()))
}

fn run_method(unit: &CompiledMethod, inst_vars: Vec<i64>) -> i64 {
    let m = Machine::new(inst_vars.into_iter().map(Val::Smi).collect());
    match m.run(unit, Val::Nil, vec![], None) {
        End::Value(v) => smi(&v),
        End::Return(v) => smi(&v),
    }
}

// ── Names ───────────────────────────────────────────────────────────────

#[test]
fn resolve_order() {
    let h = holder(&["x"]);
    let mut globals = vec!["x".to_string()];
    let mut m1 = method("m", &[], &[], vec![ret(var("x"))]);
    let compiled = compile_method(&h, false, &mut m1, &mut globals).unwrap();
    assert_eq!(run_method(&compiled, vec![2]), 2, "instvar must shadow the global");

    let mut m2 = method("m2", &[], &["x"], vec![assign("x", num(3)), ret(var("x"))]);
    let compiled2 = compile_method(&h, false, &mut m2, &mut globals).unwrap();
    assert_eq!(run_method(&compiled2, vec![2]), 3, "temp must shadow the instvar");
}

#[test]
fn resolve_unbound() {
    let mut m = method(
        "m",
        &[],
        &[],
        vec![Expr::Var { name: "Zork".to_string(), span: Span { line: 3, col: 5 } }],
    );
    let err = compile_method(&holder(&[]), false, &mut m, &mut Vec::new()).unwrap_err();
    assert_eq!(err.span, Span { line: 3, col: 5 });
    assert!(err.msg.contains("Zork"));
}

#[test]
fn resolve_doit_global() {
    let mut globals = Vec::new();
    let u1 = compile_top(assign("Foo", num(3)), &mut globals);
    assert_eq!(globals, vec!["Foo".to_string()]);
    let u2 = compile_top(var("Foo"), &mut globals);
    let m = Machine::new(vec![]);
    match m.run(&u1, Val::Nil, vec![], None) {
        End::Value(v) => assert_eq!(smi(&v), 3),
        End::Return(_) => panic!("a value"),
    }
    match m.run(&u2, Val::Nil, vec![], None) {
        End::Value(v) => assert_eq!(smi(&v), 3),
        End::Return(_) => panic!("a value"),
    }
    assert!(compile_doit(&holder(&[]), assign("foo", num(3)), &mut globals).is_err());
    assert_eq!(globals, vec!["Foo".to_string()]);
}

#[test]
fn an_upper_case_letter_is_one_of_any_script() {
    let mut globals = Vec::new();
    assert!(compile_doit(&holder(&[]), assign("Éa", num(1)), &mut globals).is_ok());
    assert_eq!(globals, vec!["Éa".to_string()]);
    assert!(compile_doit(&holder(&[]), assign("éa", num(1)), &mut globals).is_err());
    assert!(compile_doit(&holder(&[]), assign("_A", num(1)), &mut globals).is_err());
    assert_eq!(globals.len(), 1);
}

#[test]
fn a_method_declares_no_global() {
    let mut globals = Vec::new();
    let mut m = method("m", &[], &[], vec![assign("Foo", num(3))]);
    assert!(compile_method(&holder(&[]), false, &mut m, &mut globals).is_err());
    assert!(globals.is_empty());
}

#[test]
fn the_class_side_sees_no_instance_variables() {
    let mut m = method("m", &[], &[], vec![ret(var("x"))]);
    assert!(compile_method(&holder(&["x"]), true, &mut m, &mut Vec::new()).is_err());
}

#[test]
fn inherited_variables_come_first() {
    let chain = vec![
        KlassVars { inst_vars: vec!["c".to_string()], class_vars: vec!["K".to_string()] },
        KlassVars { inst_vars: vec!["a".to_string(), "b".to_string()], class_vars: vec!["L".to_string()] },
    ];
    assert_eq!(flatten_inst_vars(&chain), vec!["a", "b", "c"]);
    assert!(matches!(find_class_var(&chain, "K"), Some(Entry::ClassVar { class: 0, var: 0 })));
    assert!(matches!(find_class_var(&chain, "L"), Some(Entry::ClassVar { class: 1, var: 0 })));
    assert!(find_class_var(&chain, "M").is_none());
}

// ── Literals, sites and flags ───────────────────────────────────────────

#[test]
fn litframe_dedupe() {
    let mut m = method(
        "m",
        &[],
        &[],
        vec![
            lit(Literal::Symbol("foo".to_string())),
            lit(Literal::Symbol("foo".to_string())),
            lit(Literal::Str("hi".to_string())),
            lit(Literal::Str("hi".to_string())),
            num(1000),
            num(1000),
        ],
    );
    let compiled = compile_method(&holder(&[]), false, &mut m, &mut Vec::new()).unwrap();
    assert_eq!(compiled.literals.len(), 3);
}

#[test]
fn equal_strings_share_an_object_and_arrays_do_not() {
    let mut objs = Vec::new();
    let place = |r: LitRef| match r {
        LitRef::Obj(i) => i,
        other => panic!("{other:?}"),
    };
    let text = |s: &str| Literal::Str(s.to_string());
    let a = place(build_literal_value(&mut objs, &text("s")));
    let b = place(build_literal_value(&mut objs, &text("s")));
    let c = place(build_literal_value(&mut objs, &text("t")));
    assert_eq!(a, b);
    assert_ne!(a, c);
    let array = || Literal::Array(vec![Literal::Int(1), Literal::Str("s".to_string())]);
    let x = place(build_literal_value(&mut objs, &array()));
    let y = place(build_literal_value(&mut objs, &array()));
    assert_ne!(x, y);
    assert_eq!(objs.len(), 4, "two texts and two arrays");
}

#[test]
fn ic_site_indices() {
    let mut m = method(
        "m",
        &[],
        &[],
        vec![
            send(Expr::SelfRef(sp()), "foo", vec![]),
            send(Expr::SelfRef(sp()), "bar", vec![]),
            send(Expr::SelfRef(sp()), "baz", vec![]),
        ],
    );
    let compiled = compile_method(&holder(&[]), false, &mut m, &mut Vec::new()).unwrap();
    assert_eq!(4 * compiled.ics.len(), 12, "four words for each site");
    let ops: Vec<u32> = compiled
        .code
        .iter()
        .filter_map(|i| match i {
            Instr::Send { ic, .. } => Some(*ic),
            _ => None,
        })
        .collect();
    assert_eq!(ops, vec![0, 1, 2]);
}

#[test]
fn flags_word() {
    let h = holder(&[]);
    let mut m1 = method("a:b:", &["a", "b"], &["t"], vec![]);
    let c1 = compile_method(&h, false, &mut m1, &mut Vec::new()).unwrap();
    assert_eq!(c1.argc, 2);
    assert_eq!(c1.ntemps, 1);
    assert!(!c1.has_ctx);
    assert!(!c1.is_block);
    assert!(!c1.prim_fails);

    let mut m2 = method("m2", &[], &["t"], vec![block(&[], &[], vec![var("t")])]);
    let c2 = compile_method(&h, false, &mut m2, &mut Vec::new()).unwrap();
    assert!(c2.has_ctx);
    assert_eq!(c2.nctx, 1);

    let mut m3 = method("m3", &[], &[], vec![Expr::SelfRef(sp())]);
    m3.primitive = Some(7);
    let c3 = compile_method(&h, false, &mut m3, &mut Vec::new()).unwrap();
    assert!(c3.prim_fails);
    assert_eq!(c3.primitive, 7);

    let mut m4 = method("m4", &[], &[], vec![]);
    m4.primitive = Some(7);
    let c4 = compile_method(&h, false, &mut m4, &mut Vec::new()).unwrap();
    assert!(!c4.prim_fails);

    let mut m5 = method("m5", &[], &[], vec![block(&[], &[], vec![])]);
    let c5 = compile_method(&h, false, &mut m5, &mut Vec::new()).unwrap();
    assert_eq!(c5.literals.len(), 1);
    match &c5.literals[0] {
        Entry::Block(b) => assert!(c5.blocks[*b].is_block),
        other => panic!("{other:?}"),
    }
}

#[test]
fn bigint_literal() {
    let mag = int_lit_magnitude(16, "FFFFFFFFFFFFFFFFFF");
    assert_eq!(mag, vec![0xFF; 9]);
    let mut m = method("m", &[], &[], vec![ret(lit(Literal::BigInt { negative: false, digits: mag.clone() }))]);
    let compiled = compile_method(&holder(&[]), false, &mut m, &mut Vec::new()).unwrap();
    let machine = Machine::new(vec![]);
    match machine.run(&compiled, Val::Nil, vec![], None) {
        End::Value(Val::Big(negative, digits)) => {
            assert!(!negative);
            assert_eq!(digits, mag);
        }
        _ => panic!("a large integer"),
    }
}

// ── Control flow ────────────────────────────────────────────────────────

fn boolean(v: bool) -> Expr {
    lit(if v { Literal::True } else { Literal::False })
}

#[test]
fn inlined_iftrue_golden() {
    // true ifTrue: [3] ifFalse: [4]
    let choose = |v: bool| {
        send(
            boolean(v),
            "ifTrue:ifFalse:",
            vec![block(&[], &[], vec![num(3)]), block(&[], &[], vec![num(4)])],
        )
    };
    assert_eq!(run_top(choose(true)), 3);
    // false ifTrue: [3] ifFalse: [4]
    assert_eq!(run_top(choose(false)), 4);
}

#[test]
fn inlined_whiletrue_and_todo() {
    // [| i sum | i := 1. sum := 0. [i <= 5] whileTrue: [sum := sum + i. i := i + 1]. sum] value
    let body = vec![
        assign("i", num(1)),
        assign("sum", num(0)),
        send(
            block(&[], &[], vec![send(var("i"), "<=", vec![num(5)])]),
            "whileTrue:",
            vec![block(
                &[],
                &[],
                vec![
                    assign("sum", send(var("sum"), "+", vec![var("i")])),
                    assign("i", send(var("i"), "+", vec![num(1)])),
                ],
            )],
        ),
        var("sum"),
    ];
    assert_eq!(run_top(send(block(&[], &["i", "sum"], body), "value", vec![])), 15);

    // [| sum | sum := 0. 1 to: 5 do: [:i | sum := sum + i]. sum] value
    let body = vec![
        assign("sum", num(0)),
        send(
            num(1),
            "to:do:",
            vec![
                num(5),
                block(&["i"], &[], vec![assign("sum", send(var("sum"), "+", vec![var("i")]))]),
            ],
        ),
        var("sum"),
    ];
    assert_eq!(run_top(send(block(&[], &["sum"], body), "value", vec![])), 15);
}

#[test]
fn inlined_zero_arg_whiletrue_and_whilefalse() {
    // [| i | i := 0. [i := i + 1. i <= 5] whileTrue. i] value
    let looped = |test: &str, selector: &str| {
        let body = vec![
            assign("i", num(0)),
            send(
                block(
                    &[],
                    &[],
                    vec![
                        assign("i", send(var("i"), "+", vec![num(1)])),
                        send(var("i"), test, vec![num(5)]),
                    ],
                ),
                selector,
                vec![],
            ),
            var("i"),
        ];
        send(block(&[], &["i"], body), "value", vec![])
    };
    assert_eq!(run_top(looped("<=", "whileTrue")), 6);
    // [| i | i := 0. [i := i + 1. i > 5] whileFalse. i] value
    assert_eq!(run_top(looped(">", "whileFalse")), 6);
}

#[test]
fn opcode_coverage_smoke() {
    // [| a b | a := 1. b := a + 2. (b > 2) ifTrue: [b] ifFalse: [a]] value
    let body = vec![
        assign("a", num(1)),
        assign("b", send(var("a"), "+", vec![num(2)])),
        send(
            send(var("b"), ">", vec![num(2)]),
            "ifTrue:ifFalse:",
            vec![block(&[], &[], vec![var("b")]), block(&[], &[], vec![var("a")])],
        ),
    ];
    assert_eq!(run_top(send(block(&[], &["a", "b"], body), "value", vec![])), 3);
}

#[test]
fn the_other_control_structures() {
    let b = |e: Expr| block(&[], &[], vec![e]);
    assert_eq!(run_top(send(boolean(false), "ifFalse:", vec![b(num(9))])), 9);
    assert_eq!(run_top(send(boolean(true), "ifTrue:", vec![b(num(8))])), 8);
    assert_eq!(
        run_top(send(boolean(true), "ifFalse:ifTrue:", vec![b(num(1)), b(num(2))])),
        2
    );
    // (true and: [false]) ifTrue: [1] ifFalse: [2]
    assert_eq!(
        run_top(send(
            send(boolean(true), "and:", vec![b(boolean(false))]),
            "ifTrue:ifFalse:",
            vec![b(num(1)), b(num(2))]
        )),
        2
    );
    // (false or: [true]) ifTrue: [1] ifFalse: [2]
    assert_eq!(
        run_top(send(
            send(boolean(false), "or:", vec![b(boolean(true))]),
            "ifTrue:ifFalse:",
            vec![b(num(1)), b(num(2))]
        )),
        1
    );
    assert_eq!(run_top(send(lit(Literal::Nil), "ifNil:", vec![b(num(5))])), 5);
    assert_eq!(run_top(send(num(4), "ifNil:", vec![b(num(5))])), 4);
    assert_eq!(
        run_top(send(
            num(4),
            "ifNotNil:",
            vec![block(&["v"], &[], vec![send(var("v"), "+", vec![num(1)])])]
        )),
        5
    );
    assert_eq!(
        run_top(send(
            lit(Literal::Nil),
            "ifNil:ifNotNil:",
            vec![b(num(1)), block(&["v"], &[], vec![var("v")])]
        )),
        1
    );
    assert_eq!(
        run_top(send(
            num(7),
            "ifNotNil:ifNil:",
            vec![block(&["v"], &[], vec![var("v")]), b(num(1))]
        )),
        7
    );
    // [| n | n := 0. 3 timesRepeat: [n := n + 2]. n] value
    let body = vec![
        assign("n", num(0)),
        send(num(3), "timesRepeat:", vec![b(assign("n", send(var("n"), "+", vec![num(2)])))]),
        var("n"),
    ];
    assert_eq!(run_top(send(block(&[], &["n"], body), "value", vec![])), 6);
}

#[test]
fn dissolved_control_flow_leaves_a_value_on_every_way() {
    let left = |stmt: Expr| {
        let unit = compile_top(stmt, &mut Vec::new());
        let m = Machine::new(vec![]);
        let v = match m.run(&unit, Val::Nil, vec![], None) {
            End::Value(v) => v,
            End::Return(v) => v,
        };
        match v {
            Val::Nil => "nil".to_string(),
            Val::Bool(b) => b.to_string(),
            Val::Smi(n) => n.to_string(),
            _ => "?".to_string(),
        }
    };
    let b = |e: Expr| block(&[], &[], vec![e]);
    let nil = || lit(Literal::Nil);
    let taken = || block(&["v"], &[], vec![send(var("v"), "+", vec![num(1)])]);

    // one block: what is left where it does not run, and where it does
    assert_eq!(left(send(boolean(false), "ifTrue:", vec![b(num(1))])), "nil");
    assert_eq!(left(send(boolean(true), "ifTrue:", vec![b(num(1))])), "1");
    assert_eq!(left(send(boolean(true), "ifFalse:", vec![b(num(1))])), "nil");
    assert_eq!(left(send(boolean(false), "ifFalse:", vec![b(num(1))])), "1");
    assert_eq!(left(send(boolean(false), "and:", vec![b(num(1))])), "false");
    assert_eq!(left(send(boolean(true), "and:", vec![b(num(1))])), "1");
    assert_eq!(left(send(boolean(true), "or:", vec![b(num(1))])), "true");
    assert_eq!(left(send(boolean(false), "or:", vec![b(num(1))])), "1");
    assert_eq!(left(send(boolean(true), "ifTrue:", vec![block(&[], &[], vec![])])), "nil");

    // two blocks
    assert_eq!(left(send(boolean(false), "ifFalse:ifTrue:", vec![b(num(1)), b(num(2))])), "1");
    assert_eq!(left(send(boolean(true), "ifFalse:ifTrue:", vec![b(num(1)), b(num(2))])), "2");

    // nil
    assert_eq!(left(send(nil(), "ifNotNil:", vec![taken()])), "nil");
    assert_eq!(left(send(num(4), "ifNotNil:", vec![b(num(9))])), "9");
    assert_eq!(left(send(boolean(false), "ifNil:", vec![b(num(5))])), "false");
    assert_eq!(left(send(num(4), "ifNil:ifNotNil:", vec![b(num(1)), taken()])), "5");
    assert_eq!(left(send(nil(), "ifNotNil:ifNil:", vec![taken(), b(num(1))])), "1");

    // loops on a condition leave nil, also where they never run
    assert_eq!(left(send(b(boolean(false)), "whileTrue:", vec![b(num(1))])), "nil");
    assert_eq!(left(send(b(boolean(true)), "whileFalse:", vec![b(num(1))])), "nil");
    assert_eq!(left(send(b(boolean(false)), "whileTrue", vec![])), "nil");
    assert_eq!(left(send(b(boolean(true)), "whileFalse", vec![])), "nil");

    // counted loops leave their receiver
    assert_eq!(left(send(num(3), "timesRepeat:", vec![b(num(8))])), "3");
    assert_eq!(left(send(num(0), "timesRepeat:", vec![b(num(8))])), "0");
    assert_eq!(left(send(num(2), "to:do:", vec![num(5), block(&["i"], &[], vec![var("i")])])), "2");
    assert_eq!(left(send(num(5), "to:do:", vec![num(2), block(&["i"], &[], vec![var("i")])])), "5");
}

#[test]
fn repeat_is_left_by_a_return() {
    // | i | i := 0. [i := i + 1. i > 3 ifTrue: [^i]] repeat
    let mut m = method(
        "m",
        &[],
        &["i"],
        vec![
            assign("i", num(0)),
            send(
                block(
                    &[],
                    &[],
                    vec![
                        assign("i", send(var("i"), "+", vec![num(1)])),
                        send(
                            send(var("i"), ">", vec![num(3)]),
                            "ifTrue:",
                            vec![block(&[], &[], vec![ret(var("i"))])],
                        ),
                    ],
                ),
                "repeat",
                vec![],
            ),
        ],
    );
    let compiled = compile_method(&holder(&[]), false, &mut m, &mut Vec::new()).unwrap();
    let i = compiled.code.iter().position(|i| *i == Instr::ReturnTos);
    assert!(i.is_some(), "a return in a dissolved block is the method's own");
    assert!(compiled.blocks.is_empty(), "no block is left");
}

#[test]
fn captured_variables_live_in_a_context() {
    // [| n | n := 1. [n := n + 4] value. n] value, with the inner block a real one
    let body = vec![
        assign("n", num(1)),
        send(block(&[], &[], vec![assign("n", send(var("n"), "+", vec![num(4)]))]), "value", vec![]),
        var("n"),
    ];
    let u = compile_top(send(block(&[], &["n"], body), "value", vec![]), &mut Vec::new());
    assert!(u.blocks[0].has_ctx);
    assert!(u.blocks[0].blocks[0].captures_ctx);
    assert_eq!(run_unit(&u), 5);
}

#[test]
fn braces_build_an_array() {
    let mut m = method(
        "m",
        &[],
        &[],
        vec![ret(Expr::DynArray { elems: vec![num(7), send(num(1), "+", vec![num(2)])], span: sp() })],
    );
    let compiled = compile_method(&holder(&[]), false, &mut m, &mut Vec::new()).unwrap();
    let machine = Machine::new(vec![]);
    match machine.run(&compiled, Val::Nil, vec![], None) {
        End::Value(Val::Array(v)) => {
            assert_eq!(v.borrow().iter().map(smi).collect::<Vec<_>>(), vec![7, 3]);
        }
        _ => panic!("an array"),
    }
}

#[test]
fn cascades_go_to_one_receiver() {
    // 5 + 1; + 2
    let cascade = Expr::Cascade {
        receiver: Box::new(num(5)),
        segments: vec![
            send(Expr::CascadeRcvr(sp()), "+", vec![num(1)]),
            send(Expr::CascadeRcvr(sp()), "+", vec![num(2)]),
        ],
        span: sp(),
    };
    assert_eq!(run_top(cascade), 7);
}

// ── Limits and lines ────────────────────────────────────────────────────

#[test]
fn limits_are_reported() {
    let mut h = holder(&[]);
    h.limits.argc_max = 1;
    h.limits.ntemps_max = 1;
    h.limits.nctx_max = 0;
    let mut m = method("a:b:", &["a", "b"], &[], vec![]);
    let e = compile_method(&h, false, &mut m, &mut Vec::new()).unwrap_err();
    assert_eq!(e.msg, "too many parameters (2 > 1)");
    let mut m = method("m", &[], &["a", "b"], vec![]);
    let e = compile_method(&h, false, &mut m, &mut Vec::new()).unwrap_err();
    assert_eq!(e.msg, "too many temporaries/locals (2 > 1)");
    let mut m = method("m", &[], &["a"], vec![block(&[], &[], vec![var("a")])]);
    let e = compile_method(&h, false, &mut m, &mut Vec::new()).unwrap_err();
    assert_eq!(e.msg, "too many captured variables (1 > 0)");
    assert!(!e.eof);
    assert_eq!(e.path, None);
}

#[test]
fn primitives_take_few_arguments() {
    let params: Vec<String> = (0..9).map(|i| format!("a{i}")).collect();
    let mut m = method("m", &[], &[], vec![]);
    m.params = params;
    m.primitive = Some(3);
    let e = compile_method(&holder(&[]), false, &mut m, &mut Vec::new()).unwrap_err();
    assert!(e.msg.starts_with("primitive method 'm' takes 9 arguments but a primitive supports at most 8"));
    m.primitive = None;
    assert!(compile_method(&holder(&[]), false, &mut m, &mut Vec::new()).is_ok());
}

#[test]
fn lines_count_from_the_method() {
    let at = |line: u32| Expr::Lit { value: Literal::Int(1), span: Span { line, col: 1 } };
    let mut m = method("m", &[], &[], vec![at(10), at(12), at(3)]);
    m.span = Span { line: 10, col: 1 };
    let compiled = compile_method(&holder(&[]), false, &mut m, &mut Vec::new()).unwrap();
    assert_eq!(compiled.line_map, vec![(0, 1), (2, 3), (4, 1)]);
    assert!(compile_top(num(1), &mut Vec::new()).line_map.is_empty());
}

// ── Foreign functions ───────────────────────────────────────────────────

fn symbol(s: &DescSlot) -> &str {
    match s {
        DescSlot::Symbol(t) => t,
        other => panic!("{other:?}"),
    }
}

fn symbols(s: &DescSlot) -> &[String] {
    match s {
        DescSlot::Symbols(v) => v,
        other => panic!("args must be an Array: {other:?}"),
    }
}

fn mmap_method() -> MethodNode {
    let mut m = method(
        "mmapAddr:length:prot:flags:fd:offset:",
        &["a1", "a2", "a3", "a4", "a5", "a6"],
        &[],
        vec![],
    );
    m.ffi = Some(FfiPragma::Function {
        name: "mmap".to_string(),
        library: None,
        ret: "g".to_string(),
        args: vec!["g".to_string(); 6],
    });
    m
}

#[test]
fn ffi_tier1_function_compiles_to_descriptor_literal() {
    let mut method = mmap_method();
    let m = compile_method(&holder(&[]), false, &mut method, &mut Vec::new()).expect("compile");
    assert_eq!(m.primitive, FFI_PRIMITIVE);
    assert!(m.literals.is_empty());
    let desc = m.descriptor.unwrap();
    assert_eq!(desc.len(), 8);
    assert!(matches!(desc[7], DescSlot::Nil), "no library is named");
    assert!(matches!(desc[6], DescSlot::Nil), "the address cache starts nil (resolved by the first call)");
    assert_eq!(symbol(&desc[0]), "function");
    assert_eq!(symbol(&desc[1]), "mmap");
    assert!(matches!(desc[2], DescSlot::Nil), "Tier 1 has no class");
    assert!(matches!(desc[3], DescSlot::Bool(false)), "Tier 1's classSide is moot");
    assert_eq!(symbol(&desc[4]), "g");
    let args = symbols(&desc[5]);
    assert_eq!(args.len(), 6);
    for a in args {
        assert_eq!(a, "g");
    }
}

#[test]
fn ffi_tier2_selector_compiles_to_descriptor_literal() {
    let mut method = method("colorWithRed:green:blue:alpha:", &["a1", "a2", "a3", "a4"], &[], vec![]);
    method.ffi = Some(FfiPragma::Selector {
        selector: "colorWithRed:green:blue:alpha:".to_string(),
        class: "NSColor".to_string(),
        class_side: true,
        ret: "g".to_string(),
        args: vec!["f".to_string(); 4],
    });
    let m = compile_method(&holder(&[]), true, &mut method, &mut Vec::new()).expect("compile");
    assert_eq!(m.primitive, FFI_PRIMITIVE);
    let desc = m.descriptor.unwrap();
    assert_eq!(symbol(&desc[0]), "selector");
    assert_eq!(symbol(&desc[1]), "colorWithRed:green:blue:alpha:");
    assert_eq!(symbol(&desc[2]), "NSColor");
    assert!(matches!(desc[3], DescSlot::Bool(true)));
    assert_eq!(symbol(&desc[4]), "g");
    let args = symbols(&desc[5]);
    assert_eq!(args.len(), 4);
    for a in args {
        assert_eq!(a, "f");
    }
}

#[test]
fn ffi_pragma_empty_args_and_default_classside() {
    let mut method = method("frame", &[], &[], vec![]);
    method.ffi = Some(FfiPragma::Selector {
        selector: "frame".to_string(),
        class: "NSView".to_string(),
        class_side: false,
        ret: "h4".to_string(),
        args: vec![],
    });
    let m = compile_method(&holder(&[]), false, &mut method, &mut Vec::new()).expect("compile");
    let desc = m.descriptor.unwrap();
    assert!(matches!(desc[3], DescSlot::Bool(false)));
    assert_eq!(symbols(&desc[5]).len(), 0);
}

#[test]
fn ffi_libraries_are_named() {
    let mut m = mmap_method();
    m.ffi = Some(FfiPragma::Function {
        name: "Beep".to_string(),
        library: Some("kernel32".to_string()),
        ret: "g".to_string(),
        args: vec![],
    });
    let c = compile_method(&holder(&[]), false, &mut m, &mut Vec::new()).unwrap();
    assert_eq!(symbol(&c.descriptor.unwrap()[7]), "kernel32");
}

#[test]
fn plain_primitive_pragma_is_unaffected_by_ffi_wiring() {
    let mut m = method("foo", &[], &[], vec![ret(num(1))]);
    m.primitive = Some(7);
    let c = compile_method(&holder(&[]), false, &mut m, &mut Vec::new()).expect("compile");
    assert_eq!(c.primitive, 7);
    assert_ne!(c.primitive, FFI_PRIMITIVE);
    assert!(c.descriptor.is_none());
}

// ── Every way through the code ──────────────────────────────────────────

/// Follows every way through a unit and its blocks, with the depth of the stack on each.
fn follow(unit: &CompiledMethod) {
    let mut depths: Vec<Option<usize>> = vec![None; unit.code.len()];
    let mut open = vec![(0usize, 0usize)];
    while let Some((at, depth)) = open.pop() {
        assert!(at < unit.code.len(), "runs off the end");
        if let Some(d) = depths[at] {
            assert_eq!(d, depth, "two depths at {at}");
            continue;
        }
        depths[at] = Some(depth);
        let (takes, leaves) = match unit.code[at] {
            Instr::Dup => (1, 2),
            Instr::Pop
            | Instr::StoreTempPop(_)
            | Instr::StoreInstvarPop(_)
            | Instr::StoreGlobalPop(_)
            | Instr::StoreCtxTempPop { .. }
            | Instr::BrTrueFwd(_)
            | Instr::BrFalseFwd(_)
            | Instr::ReturnTos
            | Instr::BlockReturnTos
            | Instr::NlrTos => (1, 0),
            Instr::Send { ic, .. } => (unit.ics[ic as usize].argc as usize + 1, 1),
            Instr::JumpFwd(_) | Instr::JumpBack(_) | Instr::ReturnSelf => (0, 0),
            _ => (0, 1),
        };
        assert!(takes <= depth, "too little on the stack at {at}");
        let next = depth - takes + leaves;
        match unit.code[at] {
            Instr::JumpFwd(t) | Instr::BrTrueFwd(t) | Instr::BrFalseFwd(t) => {
                assert!(t > at);
                open.push((t, next));
            }
            Instr::JumpBack(t) => {
                assert!(t <= at);
                open.push((t, next));
            }
            _ => {}
        }
        match unit.code[at] {
            Instr::JumpFwd(_)
            | Instr::JumpBack(_)
            | Instr::ReturnTos
            | Instr::ReturnSelf
            | Instr::BlockReturnTos
            | Instr::NlrTos => {}
            _ => open.push((at + 1, next)),
        }
    }
    for b in &unit.blocks {
        follow(b);
    }
}

#[test]
fn the_depth_is_the_same_wherever_ways_meet() {
    let b = |e: Expr| block(&[], &[], vec![e]);
    let bump = || assign("n", send(var("n"), "+", vec![num(1)]));
    let small = || send(var("n"), "<=", vec![num(9)]);
    let mut m = method(
        "m",
        &[],
        &["n"],
        vec![
            assign("n", num(0)),
            send(small(), "ifTrue:", vec![b(bump())]),
            send(small(), "ifFalse:ifTrue:", vec![b(bump()), b(ret(var("n")))]),
            send(b(small()), "whileTrue:", vec![b(bump())]),
            send(block(&[], &[], vec![bump(), small()]), "whileTrue", vec![]),
            send(num(3), "timesRepeat:", vec![b(bump())]),
            send(num(1), "to:do:", vec![num(4), block(&["i"], &[], vec![assign("n", var("i"))])]),
            send(var("n"), "ifNil:", vec![b(num(1))]),
            send(var("n"), "ifNotNil:", vec![block(&["v"], &[], vec![var("v")])]),
            send(var("n"), "ifNil:ifNotNil:", vec![b(num(1)), b(num(2))]),
            send(var("n"), "ifNotNil:ifNil:", vec![block(&["v"], &[], vec![var("v")]), b(num(2))]),
            Expr::DynArray { elems: vec![num(1), send(small(), "and:", vec![b(small())])], span: sp() },
            Expr::Cascade {
                receiver: Box::new(small()),
                segments: vec![
                    send(Expr::CascadeRcvr(sp()), "or:", vec![b(small())]),
                    send(Expr::CascadeRcvr(sp()), "foo", vec![]),
                ],
                span: sp(),
            },
            send(block(&["x"], &[], vec![ret(send(var("x"), "+", vec![var("n")]))]), "value:", vec![num(2)]),
            send(b(send(small(), "ifTrue:", vec![b(ret(num(5)))])), "repeat", vec![]),
        ],
    );
    let unit = compile_method(&holder(&[]), false, &mut m, &mut Vec::new()).unwrap();
    assert_eq!(unit.code.last(), Some(&Instr::ReturnSelf));
    assert_eq!(unit.blocks.len(), 1);
    follow(&unit);
    follow(&compile_top(send(num(1), "+", vec![send(boolean(true), "ifTrue:", vec![b(num(2))])]), &mut Vec::new()));
}

#[test]
fn a_parameter_that_a_nested_block_captures_has_one_home() {
    let nested = || send(block(&[], &[], vec![var("v")]), "value", vec![]);
    // 4 ifNotNil: [:v | [v] value]
    let arm = || block(&["v"], &[], vec![nested()]);
    assert_eq!(run_top(send(num(4), "ifNotNil:", vec![arm()])), 4);
    assert_eq!(run_top(send(num(5), "ifNil:ifNotNil:", vec![block(&[], &[], vec![num(1)]), arm()])), 5);
    assert_eq!(run_top(send(num(6), "ifNotNil:ifNil:", vec![arm(), block(&[], &[], vec![num(1)])])), 6);
    // 4 ifNotNil: [:v | [v := v + 3] value. v]
    let bump = block(&[], &[], vec![assign("v", send(var("v"), "+", vec![num(3)]))]);
    let body = vec![send(bump, "value", vec![]), var("v")];
    let unit = compile_top(send(num(4), "ifNotNil:", vec![block(&["v"], &[], body)]), &mut Vec::new());
    assert_eq!(run_unit(&unit), 7);
    assert!(unit.code.contains(&Instr::StoreCtxTempPop { depth: 0, slot: 0 }));
    assert!(!unit.code.iter().any(|i| matches!(i, Instr::StoreTempPop(_))));
    // 4 ifNotNil: [:v | v] -- nothing captures it
    let plain = compile_top(send(num(4), "ifNotNil:", vec![block(&["v"], &[], vec![var("v")])]), &mut Vec::new());
    assert!(plain.code.iter().any(|i| matches!(i, Instr::StoreTempPop(_))));
    assert_eq!(plain.nctx, 0);
}
