use macvm::bytecode::Instr;
use macvm::frontend::ast::{BlockNode, Expr, MethodNode, MethodSignature};
use macvm::frontend::codegen::{compile_method, CompiledMethod, Holder, KlassVars, MethodLimits};
use macvm::frontend::lexer::Span;
use macvm::interpreter::blocks::{
    activate_block, activate_block_interp, block_compiled, block_returned, home_ref_for_new_closure, make_closure,
    maybe_alloc_context, BlockStep, EnterResult, JitMode, PrimResult,
};
use macvm::interpreter::stack::{
    audit_stack_write, stack_audit_suspend, Frame, FrameFault, MarkerKind, ProcessStack, StackAudit, StackOverflow,
    ENTRY_FRAME_SENTINEL, FRAME_TEMPS_BASE,
};
use macvm::interpreter::{Regs, VmState};
use macvm::memory::heap::{ContextObj, Heap, MethodObj, Obj};
use macvm::oops::{ClosureOop, HomeRef, MethodOop, Oop, SmallInt, SMI_MAX, SMI_MIN};

fn smi(v: i64) -> Oop {
    SmallInt::new(v).oop()
}

fn trivial(argc: usize, ntemps: usize) -> MethodObj {
    MethodObj {
        argc,
        ntemps,
        has_ctx: false,
        is_block: false,
        captures_ctx: false,
        nctx: 0,
        invocations: 0,
        compile_disabled: false,
    }
}

fn block(argc: usize, ntemps: usize) -> MethodObj {
    MethodObj { is_block: true, ..trivial(argc, ntemps) }
}

fn test_vm() -> VmState {
    let mut heap = Heap::new();
    let nil_obj = Oop(heap.put(Obj::Plain));
    VmState {
        stack: ProcessStack::with_capacity(128),
        heap,
        nil_obj,
        regs: Regs { method: None, bci: 0 },
        next_serial: 5,
    }
}

fn add_method(vm: &mut VmState, m: MethodObj) -> MethodOop {
    MethodOop(vm.heap.put(Obj::Method(m)))
}

/// Pushes a frame as a plain activation does. The receiver and the arguments are on the stack.
fn push_frame(vm: &mut VmState, method: MethodOop) -> usize {
    let m = vm.heap.method(method);
    let fp = vm.stack.sp;
    let recv = vm.stack.get(fp - m.argc - 1);
    let serial = vm.next_serial;
    vm.next_serial += 1;
    vm.stack.push(Oop(method.0));
    vm.stack.push(smi(ENTRY_FRAME_SENTINEL));
    vm.stack.push(smi(0));
    vm.stack.push(vm.nil_obj);
    vm.stack.push(recv);
    vm.stack.push(smi(serial as i64));
    vm.stack.push(vm.nil_obj);
    for _ in 0..m.ntemps {
        vm.stack.push(vm.nil_obj);
    }
    vm.stack.activate_frame(fp);
    fp
}

/// A closure of a block, made in a method's frame with some captured values.
fn closure_in_method(vm: &mut VmState, recv: Oop, home: MethodObj, blk: MethodObj, values: &[i64]) -> ClosureOop {
    let blk = add_method(vm, blk);
    let method = add_method(vm, home);
    vm.stack.push(recv);
    let fp = push_frame(vm, method);
    let nil = vm.nil_obj;
    maybe_alloc_context(vm, method, fp, nil);
    for v in values {
        vm.stack.push(smi(*v));
    }
    let c = make_closure(vm, blk, values.len());
    vm.stack.restore_baseline(0, 0, false);
    c
}

fn context(vm: &VmState, o: Oop) -> &ContextObj {
    assert!(vm.heap.context_of(o).is_some());
    match &vm.heap.objects[((o.raw() - 1) / 8) as usize] {
        Obj::Context(c) => c,
        _ => panic!("a context"),
    }
}

// ── Words ───────────────────────────────────────────────────────────────

#[test]
fn small_integers_read_back() {
    for v in [0, 1, -1, 42, SMI_MIN, SMI_MAX] {
        assert_eq!(SmallInt::try_from(smi(v)).unwrap().value(), v);
    }
    assert_eq!(smi(3).raw(), 12);
    assert_eq!(smi(-1).raw(), u64::MAX - 3);
    assert!(SmallInt::try_from(Oop(5)).is_none());
}

// ── The stack ───────────────────────────────────────────────────────────

#[test]
fn stack_push_pop() {
    let heap = Heap::new();
    let mut st = ProcessStack::with_capacity(8);
    let (a, b, c) = (smi(1), smi(2), smi(3));
    st.push(a);
    st.push(b);
    st.push(c);
    assert_eq!(st.sp, 3);
    assert_eq!(st.top(), c);
    assert_eq!(st.pop(&heap), c);
    assert_eq!(st.pop(&heap), b);
    assert_eq!(st.pop(&heap), a);
    assert_eq!(st.sp, 0);
}

#[test]
fn stack_overflow_via_try_push() {
    let mut st = ProcessStack::with_capacity(2);
    assert!(st.try_push(smi(1)).is_ok());
    assert!(st.try_push(smi(2)).is_ok());
    assert!(st.try_push(smi(3)).is_err());
    assert_eq!(st.try_push(smi(3)), Err(StackOverflow));
    assert_eq!(st.sp, 2);
}

#[test]
fn frame_slot_table() {
    let mut vm = test_vm();
    let method = add_method(&mut vm, trivial(2, 2));
    let mut st = ProcessStack::with_capacity(64);
    let (recv, arg0, arg1) = (smi(100), smi(101), smi(102));
    st.push(recv);
    st.push(arg0);
    st.push(arg1);
    let fp = st.sp;
    let nil = vm.nil_obj;
    for v in [Oop(method.0), smi(ENTRY_FRAME_SENTINEL), smi(0), nil, recv, smi(0), nil, nil, nil] {
        st.push(v);
    }
    let frame = Frame { fp };
    let heap = &vm.heap;
    assert_eq!(frame.temp(&st, heap, 0), arg0);
    assert_eq!(frame.temp(&st, heap, 1), arg1);
    assert_eq!(frame.temp(&st, heap, 2), nil);
    assert_eq!(frame.temp(&st, heap, 3), nil);
    assert_eq!(fp - 3, frame.receiver_slot(&st, heap));
    assert_eq!(fp - 1, frame.temp_index(&st, heap, 1));
    assert_eq!(fp + FRAME_TEMPS_BASE, frame.temp_index(&st, heap, 2));
    assert_eq!(fp + FRAME_TEMPS_BASE + 1, frame.temp_index(&st, heap, 3));
    assert_eq!(frame.serial(&st), 0);
    assert_eq!(frame.marker(&st), nil);

    frame.set_temp(&mut st, heap, 3, smi(9));
    assert_eq!(frame.temp(&st, heap, 3), smi(9));
    assert_eq!(frame.temp(&st, heap, 2), nil);
    assert_eq!(frame.verify(&st, heap), Ok(()));
    assert_eq!(frame.method(&st, heap), method);
    assert_eq!(frame.saved_fp(&st), ENTRY_FRAME_SENTINEL);
    assert_eq!(frame.saved_bci(&st), 0);
}

#[test]
fn entry_frame_sentinel() {
    let mut st = ProcessStack::with_capacity(16);
    st.push(smi(ENTRY_FRAME_SENTINEL));
    assert_eq!(SmallInt::try_from(st.get(0)).unwrap().value(), ENTRY_FRAME_SENTINEL);
    let fake_fp = 12345i64;
    st.push(smi(fake_fp));
    assert_eq!(SmallInt::try_from(st.get(1)).unwrap().value(), fake_fp);
}

#[test]
fn marker_accessors() {
    let mut vm = test_vm();
    let method = add_method(&mut vm, trivial(0, 0));
    let mut st = ProcessStack::with_capacity(64);
    let recv = vm.nil_obj;
    let nil = vm.nil_obj;
    st.push(recv);
    let fp = st.sp;
    for v in [Oop(method.0), smi(ENTRY_FRAME_SENTINEL), smi(0), nil, recv, smi(0xDEAD), nil] {
        st.push(v);
    }
    st.activate_frame(fp);

    let frame = Frame { fp };
    assert_eq!(frame.serial(&st), 0xDEAD);
    assert_eq!(frame.marker(&st), nil);

    let handler = smi(42);
    frame.set_marker(&mut st, handler, MarkerKind::Ensure);
    assert_eq!(frame.marker(&st), handler);
    assert_eq!(frame.marker_kind(&st), MarkerKind::Ensure);
    assert_eq!(frame.serial(&st), 0xDEAD, "serial bits must survive set_marker");

    frame.set_marker(&mut st, handler, MarkerKind::IfCurtailed);
    assert_eq!(frame.marker_kind(&st), MarkerKind::IfCurtailed);
    assert_eq!(frame.serial(&st), 0xDEAD, "serial bits must survive a kind change");

    frame.clear_marker(&mut st, nil);
    assert_eq!(frame.marker(&st), nil);
    assert_eq!(frame.serial(&st), 0xDEAD, "serial bits must survive clear_marker");
}

#[test]
fn activations_are_saved_and_restored() {
    let mut st = ProcessStack::with_capacity(16);
    assert!(!st.has_frame());
    assert!(!st.save_activation().was_active());
    st.activate_frame(3);
    let saved = st.save_activation();
    assert!(saved.was_active());
    st.activate_frame(9);
    st.deactivate();
    st.restore_activation(saved);
    assert!(st.has_frame());
    assert_eq!(st.fp, 3);
    assert_eq!(st.capacity(), 16);
}

#[test]
fn reads_beyond_the_stack_answer_nothing() {
    let vm = test_vm();
    let frame = Frame { fp: usize::MAX };
    assert_eq!(frame.saved_fp_opt(&vm.stack), None);
    assert_eq!(frame.saved_bci_opt(&vm.stack), None);
    assert_eq!(frame.method_opt(&vm.stack, &vm.heap), None);
    let frame = Frame { fp: 0 };
    assert_eq!(frame.saved_fp_opt(&vm.stack), Some(0));
    assert_eq!(frame.saved_bci_opt(&vm.stack), Some(0));
    assert_eq!(frame.method_opt(&vm.stack, &vm.heap), None);
}

#[test]
fn faults_of_a_frame() {
    let mut vm = test_vm();
    let method = add_method(&mut vm, trivial(1, 1));
    vm.stack.push(smi(1));
    vm.stack.push(smi(2));
    let fp = push_frame(&mut vm, method);
    let frame = Frame { fp };
    assert_eq!(frame.verify(&vm.stack, &vm.heap), Ok(()));
    let check = |vm: &mut VmState, k: usize, v: Oop| {
        let was = vm.stack.get(fp + k);
        vm.stack.set(fp + k, v);
        let r = frame.verify(&vm.stack, &vm.heap);
        vm.stack.set(fp + k, was);
        r
    };
    let nil = vm.nil_obj;
    assert_eq!(check(&mut vm, 0, nil), Err(FrameFault::NotAMethod));
    assert_eq!(check(&mut vm, 1, nil), Err(FrameFault::SavedFp));
    assert_eq!(check(&mut vm, 2, nil), Err(FrameFault::SavedBci));
    assert_eq!(check(&mut vm, 5, nil), Err(FrameFault::Serial));
    assert_eq!(check(&mut vm, 4, smi(7)), Err(FrameFault::Receiver));
    vm.stack.sp -= 1;
    assert_eq!(frame.verify(&vm.stack, &vm.heap), Err(FrameFault::Temps));
    vm.stack.sp -= 1;
    assert_eq!(frame.verify(&vm.stack, &vm.heap), Err(FrameFault::Truncated));
    vm.stack.sp += 2;
    let many = add_method(&mut vm, trivial(9, 1));
    assert_eq!(check(&mut vm, 0, Oop(many.0)), Err(FrameFault::NoRoomForArgs));
    let blk = add_method(&mut vm, block(1, 1));
    assert_eq!(check(&mut vm, 0, Oop(blk.0)), Err(FrameFault::BlockShape));
}

#[test]
fn writes_are_audited() {
    let mut audit = StackAudit { enabled: true, suspended: false };
    assert_eq!(audit_stack_write(&audit, 3, smi(1), 0, "set"), None);
    let m = audit_stack_write(&audit, 3, Oop(0x1_0000_1000), 0, "push").unwrap();
    assert!(m.starts_with("STACK-WRITE AUDIT (push): slot 3 <- 0x100001000, a \"smi\""));
    assert_eq!(audit_stack_write(&audit, 3, Oop(0x1001), 7, "set"), None);
    let m = audit_stack_write(&audit, 4, Oop(0x1001), 0x10, "set").unwrap();
    assert!(m.starts_with("STACK-WRITE AUDIT (set): slot 4 <- 0x1001, whose target mark word 0x10 is implausible"));
    stack_audit_suspend(&mut audit, true);
    assert_eq!(audit_stack_write(&audit, 4, Oop(0x1001), 0x10, "set"), None);
    stack_audit_suspend(&mut audit, false);
    assert!(audit_stack_write(&audit, 4, Oop(0x1001), 0x10, "set").is_some());
    audit.enabled = false;
    assert_eq!(audit_stack_write(&audit, 4, Oop(0x1001), 0x10, "set"), None);
}

// ── Contexts and closures ───────────────────────────────────────────────

#[test]
fn context_alloc_method() {
    let mut vm = test_vm();
    let method = add_method(&mut vm, MethodObj { has_ctx: true, nctx: 3, ..trivial(0, 0) });
    let nil = vm.nil_obj;
    vm.stack.push(nil);
    let fp = push_frame(&mut vm, method);
    maybe_alloc_context(&mut vm, method, fp, nil);
    let ctx = context(&vm, Frame { fp }.context(&vm.stack));
    assert_eq!(ctx.slots.len(), 3);
    assert_eq!(ctx.home_hint, nil);
    for i in 0..3 {
        assert_eq!(ctx.slots[i], nil);
    }
}

#[test]
fn context_no_alloc_without_has_ctx() {
    let mut vm = test_vm();
    let method = add_method(&mut vm, trivial(0, 0));
    let nil = vm.nil_obj;
    vm.stack.push(nil);
    let fp = push_frame(&mut vm, method);
    let before = vm.heap.objects.len();
    maybe_alloc_context(&mut vm, method, fp, nil);
    assert_eq!(vm.heap.objects.len(), before, "no Context allocated");
    assert_eq!(Frame { fp }.context(&vm.stack), nil);
}

#[test]
fn push_closure_copied_layout() {
    let mut vm = test_vm();
    let recv = smi(999);
    let closure = closure_in_method(&mut vm, recv, trivial(0, 0), block(0, 2), &[10, 20]);
    assert!(vm.heap.closure_of(Oop(closure.0)).is_some(), "result must be a Closure");
    assert_eq!(vm.heap.ncopied(closure), 3);
    assert_eq!(vm.heap.copied(closure, 0), recv);
    assert_eq!(vm.heap.copied(closure, 1), smi(10));
    assert_eq!(vm.heap.copied(closure, 2), smi(20));
}

#[test]
fn push_closure_home_method() {
    let mut vm = test_vm();
    let expected_fp = vm.stack.sp + 1;
    let expected_serial = vm.next_serial;
    let nil = vm.nil_obj;
    let closure = closure_in_method(&mut vm, nil, trivial(0, 0), block(0, 0), &[]);
    let home_ref = vm.heap.closure_home(closure);
    assert_eq!(home_ref.proc, 0);
    assert_eq!(home_ref.fp, expected_fp);
    assert_eq!(home_ref.serial, expected_serial);
}

#[test]
fn push_closure_home_propagates() {
    let mut vm = test_vm();
    let nil = vm.nil_obj;
    let outer = closure_in_method(&mut vm, nil, trivial(0, 0), block(0, 0), &[]);
    let outer_home = vm.heap.closure_home(outer);
    let inner_blk = add_method(&mut vm, block(0, 0));
    for _ in 0..3 {
        vm.stack.push(nil);
    }
    vm.stack.push(Oop(outer.0));
    push_frame(&mut vm, inner_blk);
    let new_home = home_ref_for_new_closure(&vm);
    assert_eq!(new_home, outer_home, "a closure made inside a block must inherit the block's own closure's home");
    assert_ne!(new_home, HomeRef { proc: 0, serial: vm.next_serial - 1, fp: vm.stack.fp });
}

#[test]
fn a_captured_context_comes_second() {
    let mut vm = test_vm();
    let home = MethodObj { has_ctx: true, nctx: 1, ..trivial(0, 0) };
    let blk = MethodObj { captures_ctx: true, ..block(0, 1) };
    let c = closure_in_method(&mut vm, smi(1), home, blk, &[8]);
    assert_eq!(vm.heap.ncopied(c), 3);
    assert!(vm.heap.context_of(vm.heap.copied(c, 1)).is_some());
    assert_eq!(vm.heap.copied(c, 2), smi(8));
}

// ── Activation ──────────────────────────────────────────────────────────

#[test]
fn activate_block_frame_shape() {
    let mut vm = test_vm();
    let recv = smi(555);
    let closure = closure_in_method(&mut vm, recv, trivial(0, 0), block(1, 1), &[7]);
    vm.stack.push(Oop(closure.0));
    let arg = smi(42);
    vm.stack.push(arg);
    let result = activate_block(&mut vm, closure, 1, JitMode::Off, None, false);
    assert_eq!(result, BlockStep::Done(PrimResult::Activated));

    let fp = vm.stack.fp;
    let frame = Frame { fp };
    assert_eq!(frame.method(&vm.stack, &vm.heap), vm.heap.closure_method(closure));
    assert_eq!(
        frame.receiver(&vm.stack),
        recv,
        "receiver must be the closure's captured home receiver, not the closure itself"
    );
    assert_eq!(vm.stack.get(frame.receiver_slot(&vm.stack, &vm.heap)), Oop(closure.0));
    assert_eq!(frame.temp(&vm.stack, &vm.heap, 0), arg, "arg from the caller's stack");
    assert_eq!(frame.temp(&vm.stack, &vm.heap, 1), smi(7), "value capture in the first local temp slot");
    assert_eq!(vm.stack.sp, fp + FRAME_TEMPS_BASE + 1, "sp must sit exactly past the 1 pushed temp");
    assert_eq!(frame.verify(&vm.stack, &vm.heap), Ok(()));
    assert_eq!(vm.regs, Regs { method: Some(vm.heap.closure_method(closure)), bci: 0 });
}

#[test]
fn activate_block_argc_mismatch() {
    let mut vm = test_vm();
    let nil = vm.nil_obj;
    let closure = closure_in_method(&mut vm, nil, trivial(0, 0), block(2, 2), &[]);
    vm.stack.push(Oop(closure.0));
    vm.stack.push(nil);
    let sp_before = vm.stack.sp;
    let result = activate_block(&mut vm, closure, 1, JitMode::Off, None, false);
    assert_eq!(result, BlockStep::Done(PrimResult::Fail));
    assert_eq!(vm.stack.sp, sp_before, "Fail must not touch the stack");
    assert_eq!(activate_block_interp(&mut vm, closure, 1), PrimResult::Fail);
}

#[test]
fn context_chain_block() {
    let mut vm = test_vm();
    let nil = vm.nil_obj;
    let home = MethodObj { has_ctx: true, nctx: 1, ..trivial(0, 1) };
    let blk = MethodObj { has_ctx: true, nctx: 1, captures_ctx: true, ..block(0, 1) };
    let closure = closure_in_method(&mut vm, nil, home, blk, &[]);
    vm.stack.push(Oop(closure.0));
    let result = activate_block(&mut vm, closure, 0, JitMode::Off, None, false);
    assert_eq!(result, BlockStep::Done(PrimResult::Activated));
    let frame = Frame { fp: vm.stack.fp };
    let enclosing = vm.heap.copied(closure, 1);
    assert!(vm.heap.context_of(enclosing).is_some(), "copied[1] is the enclosing Context");
    let block_ctx = context(&vm, frame.context(&vm.stack));
    assert_eq!(block_ctx.home_hint, enclosing);
}

#[test]
fn ctxless_block_aliases() {
    let mut vm = test_vm();
    let nil = vm.nil_obj;
    let home = MethodObj { has_ctx: true, nctx: 1, ..trivial(0, 1) };
    let blk = MethodObj { captures_ctx: true, ..block(0, 0) };
    let closure = closure_in_method(&mut vm, nil, home, blk, &[]);
    vm.stack.push(Oop(closure.0));
    let result = activate_block(&mut vm, closure, 0, JitMode::Off, None, false);
    assert_eq!(result, BlockStep::Done(PrimResult::Activated));
    let frame = Frame { fp: vm.stack.fp };
    assert_eq!(frame.context(&vm.stack), vm.heap.copied(closure, 1));
}

/// The method `m` with the body `^[self foo]`.
fn compiled_m() -> CompiledMethod {
    let span = Span { line: 0, col: 0 };
    let foo = Expr::Send {
        receiver: Box::new(Expr::SelfRef(span)),
        selector: "foo".to_string(),
        args: vec![],
        is_super: false,
        span,
    };
    let blk = BlockNode { params: vec![], temps: vec![], body: vec![foo], span, scope_id: 0 };
    let mut m = MethodNode {
        pattern_selector: "m".to_string(),
        params: vec![],
        primitive: None,
        ffi: None,
        temps: vec![],
        body: vec![Expr::Return { value: Box::new(Expr::Block(Box::new(blk))), span }],
        class_side: false,
        span,
        type_sig: MethodSignature::default(),
    };
    let holder = Holder {
        chain: vec![KlassVars { inst_vars: vec![], class_vars: vec![] }],
        limits: MethodLimits { argc_max: 15, ntemps_max: 255, nctx_max: 255, primitive_args_max: 8, ffi_primitive: 255 },
    };
    compile_method(&holder, false, &mut m, &mut Vec::new()).unwrap()
}

fn loaded(unit: &CompiledMethod) -> MethodObj {
    MethodObj {
        has_ctx: unit.has_ctx,
        is_block: unit.is_block,
        captures_ctx: unit.captures_ctx,
        nctx: unit.nctx,
        ..trivial(unit.argc, unit.ntemps)
    }
}

#[test]
fn block_own_ics_counters() {
    let mut vm = test_vm();
    let nil = vm.nil_obj;
    let method = compiled_m();
    let body = &method.blocks[0];
    let closure = closure_in_method(&mut vm, nil, loaded(&method), loaded(body), &[]);
    let blk = vm.heap.closure_method(closure);
    assert_eq!(vm.heap.method(blk).invocations, 0);
    vm.stack.push(Oop(closure.0));
    let result = activate_block(&mut vm, closure, 0, JitMode::Off, None, false);
    assert_eq!(result, BlockStep::Done(PrimResult::Activated));
    assert_eq!(vm.heap.method(blk).invocations, 1, "the block's own counter must bump");
    let others = vm.heap.objects.iter().filter(|o| matches!(o, Obj::Method(m) if m.invocations > 0)).count();
    assert_eq!(others, 1, "the home method's counter is unaffected by the block's activation");

    // The send of `foo` inside the block's body names the block's own table, not the home method's.
    assert_eq!(body.code[1], Instr::Send { ic: 0, super_: false });
    assert_eq!(body.ics.len(), 1);
    assert_eq!(body.ics[0].selector, "foo");
    assert_eq!(method.ics.len(), 0, "the home method emits no sends of its own");
}

#[test]
fn compiled_code_is_entered_first() {
    let mut vm = test_vm();
    let nil = vm.nil_obj;
    let closure = closure_in_method(&mut vm, nil, trivial(0, 0), block(0, 0), &[]);
    let blk = vm.heap.closure_method(closure);
    vm.stack.push(Oop(closure.0));
    let jit = JitMode::Threshold(2);
    assert_eq!(activate_block(&mut vm, closure, 0, jit, Some(77), true), BlockStep::Enter(77));
    assert_eq!(vm.heap.method(blk).invocations, 1);
    assert_eq!(activate_block(&mut vm, closure, 0, jit, None, true), BlockStep::Compile);
    assert_eq!(block_compiled(&mut vm, closure, 0, Some(5)), BlockStep::Enter(5));
    let sp = vm.stack.sp;
    vm.stack.push(smi(3));
    assert_eq!(block_returned(&mut vm, closure, 0, EnterResult::Completed), PrimResult::Value(smi(3)));
    assert_eq!(vm.stack.sp, sp);
    assert_eq!(block_returned(&mut vm, closure, 0, EnterResult::Nlr(9)), PrimResult::Nlr(9));
    assert_eq!(block_returned(&mut vm, closure, 0, EnterResult::Bailout), PrimResult::Activated);
    assert_eq!(vm.stack.fp, sp);
}

#[test]
fn captured_values_rule_compiling_out() {
    let mut vm = test_vm();
    let nil = vm.nil_obj;
    let closure = closure_in_method(&mut vm, nil, trivial(0, 0), block(0, 1), &[4]);
    let blk = vm.heap.closure_method(closure);
    vm.stack.push(Oop(closure.0));
    let r = activate_block(&mut vm, closure, 0, JitMode::Threshold(1), None, true);
    assert_eq!(r, BlockStep::Done(PrimResult::Activated));
    assert!(vm.heap.method(blk).compile_disabled);
    let mut vm = test_vm();
    let closure = closure_in_method(&mut vm, nil, trivial(0, 0), block(0, 0), &[]);
    vm.stack.push(Oop(closure.0));
    let r = block_compiled(&mut vm, closure, 0, None);
    assert_eq!(r, BlockStep::Done(PrimResult::Activated));
}
