//! Closures, contexts and the activation of blocks.
//!
//! A block that is sent `value` either runs compiled code or gets a frame of its own.
//! [`activate_block`] decides; where code has to be compiled or entered first, it says so, and
//! [`block_compiled`] and [`block_returned`] go on from there.
use vstd::prelude::*;
use crate::interpreter::stack::{Frame, FRAME_CONTEXT, FRAME_MARKER, FRAME_METHOD, FRAME_RECEIVER, FRAME_SERIAL, FRAME_TEMPS_BASE};
#[allow(unused_imports)]
use crate::interpreter::stack::{serial_of, StackV};
use crate::interpreter::{Regs, VmState};
use crate::memory::heap::{ClosureObj, ContextObj, Heap, MethodObj, Obj};
#[allow(unused_imports)]
use crate::memory::heap::{place_word, word_place};
use crate::oops::{ClosureOop, HomeRef, MethodOop, Oop, SmallInt};
#[allow(unused_imports)]
use crate::oops::{is_small, law_small_integers_read_back, smi_word};

verus! {

/// What a primitive answers.
#[derive(Clone, Copy, Debug, PartialEq, Eq, Structural)]
pub enum PrimResult {
    Value(Oop),
    Fail,
    /// A frame has been pushed; there is no result yet.
    Activated,
    /// A non-local return is unwinding.
    Nlr(u64),
}

/// When code is compiled.
#[derive(Clone, Copy, Debug, PartialEq, Eq, Structural)]
pub enum JitMode {
    Off,
    /// After so many activations.
    Threshold(u32),
}

/// What is to be done for an activation.
#[derive(Clone, Copy, Debug, PartialEq, Eq, Structural)]
pub enum BlockStep {
    Done(PrimResult),
    /// Compile the block.
    Compile,
    /// Enter the compiled code of this number.
    Enter(u64),
}

/// How compiled code came back.
#[derive(Clone, Copy, Debug, PartialEq, Eq, Structural)]
pub enum EnterResult {
    /// The result is on the stack.
    Completed,
    /// It gave up before anything could be seen of it.
    Bailout,
    Nlr(u64),
}

// ── What an activation does ─────────────────────────────────────────────

/// The closure that a word points to.
pub open spec fn closure_in(objs: Seq<Obj>, w: u64) -> ClosureObj {
    objs[word_place(w) as int]->Closure_0
}

/// The method that a word points to.
pub open spec fn method_in(objs: Seq<Obj>, w: u64) -> MethodObj {
    objs[word_place(w) as int]->Method_0
}

/// How many words of a closure come before the captured values.
pub open spec fn value_base(m: MethodObj) -> int {
    if m.captures_ctx {
        2
    } else {
        1
    }
}

/// The context around a block.
pub open spec fn enclosing(c: ClosureObj, m: MethodObj, nil: Oop) -> Oop {
    if m.captures_ctx {
        c.copied@[1]
    } else {
        nil
    }
}

/// A closure's captured values.
pub open spec fn values_of(c: ClosureObj, m: MethodObj) -> Seq<Oop> {
    c.copied@.subrange(value_base(m), c.copied@.len() as int)
}

/// The frame of an activated block: the fixed slots, then the captured values, then the block's other
/// temporaries. The receiver is the closure's, not the closure.
pub open spec fn block_frame(
    c: ClosureObj,
    m: MethodObj,
    saved_fp: i64,
    saved_bci: i64,
    context: Oop,
    serial: u32,
    nil: Oop,
) -> Seq<Oop> {
    let fixed = seq![
        Oop(c.method.0),
        Oop(smi_word(saved_fp)),
        Oop(smi_word(saved_bci)),
        context,
        c.copied@[0],
        Oop(smi_word(serial as i64)),
        nil,
    ];
    let values = values_of(c, m);
    fixed + values + Seq::new((m.ntemps - values.len()) as nat, |i: int| nil)
}

/// Words laid over a sequence from a place on.
pub open spec fn overlaid(s: Seq<Oop>, at: int, words: Seq<Oop>) -> Seq<Oop> {
    Seq::new(
        s.len(),
        |i: int|
            if at <= i < at + words.len() {
                words[i - at]
            } else {
                s[i]
            },
    )
}

/// A fresh context, where the block has one, stands after the other objects.
pub open spec fn with_context(objs: Seq<Obj>, m: MethodObj, link: Oop, nil: Oop, after: Seq<Obj>) -> bool {
    if m.has_ctx {
        &&& after.len() == objs.len() + 1
        &&& after.drop_last() == objs
        &&& after.last() matches Obj::Context(x) && x.home_hint == link && x.slots@ == Seq::new(
            m.nctx as nat,
            |i: int| nil,
        )
    } else {
        after == objs
    }
}

/// The word of an activation's context.
pub open spec fn context_word(objs: Seq<Obj>, m: MethodObj, link: Oop) -> Oop {
    if m.has_ctx {
        Oop(place_word(objs.len()))
    } else {
        link
    }
}

/// A block's activation: its frame is on the stack and active, and it runs next from its start.
pub open spec fn activated(
    st: StackV,
    objs: Seq<Obj>,
    regs: Regs,
    serial: u32,
    nil: Oop,
    closure: ClosureOop,
    after: VmState,
) -> bool {
    let c = closure_in(objs, closure.0);
    let m = method_in(objs, c.method.0);
    let link = enclosing(c, m, nil);
    let frame = block_frame(c, m, st.fp as i64, regs.bci as i64, context_word(objs, m, link), serial, nil);
    &&& after.stack@ == (StackV {
        slots: overlaid(st.slots, st.sp, frame),
        sp: st.sp + FRAME_TEMPS_BASE + m.ntemps,
        fp: st.sp,
        has_frame: true,
    })
    &&& with_context(objs, m, link, nil, after.heap.objects@)
    &&& after.nil_obj == nil
    &&& after.regs == (Regs { method: Some(c.method), bci: 0 })
    &&& after.next_serial == next_serial(serial)
}

/// The serial number after one.
pub open spec fn next_serial(n: u32) -> u32 {
    if n < u32::MAX {
        (n + 1) as u32
    } else {
        0
    }
}

/// A closure with its block.
pub open spec fn is_block_closure(heap: &Heap, closure: ClosureOop) -> bool {
    heap.is_closure(closure.0) && heap.is_method(heap.closure_at(closure.0).method.0)
}

/// What an activation with the right number of arguments stands on: the closure and the arguments
/// are on the stack, there is room, and the closure has the shape that its block asks for.
pub open spec fn can_activate(vm: &VmState, closure: ClosureOop) -> bool {
    let c = vm.heap.closure_at(closure.0);
    let m = vm.heap.method_at(c.method.0);
    &&& vm.stack@.sp > m.argc
    &&& vm.stack@.slots[vm.stack@.sp - m.argc - 1] == Oop(closure.0)
    &&& vm.stack@.sp + FRAME_TEMPS_BASE + m.ntemps <= vm.stack@.slots.len()
    &&& value_base(m) <= c.copied@.len() <= value_base(m) + m.ntemps
    &&& is_small(vm.stack@.fp as i64)
    &&& is_small(vm.regs.bci as i64)
    &&& m.has_ctx ==> vm.heap.has_room()
}

// ── Contexts ────────────────────────────────────────────────────────────

fn nils(n: usize, nil: Oop) -> (v: Vec<Oop>)
    ensures
        v@ == Seq::new(n as nat, |i: int| nil),
{
    let mut v: Vec<Oop> = Vec::new();
    let mut i: usize = 0;
    while i < n
        invariant
            i <= n,
            v@ =~= Seq::new(i as nat, |i: int| nil),
        decreases n - i,
    {
        v.push(nil);
        i += 1;
    }
    v
}

/// Gives a frame a context of its own, linked to the one around it, where its method asks for one.
pub fn maybe_alloc_context(vm: &mut VmState, method: MethodOop, fp: usize, enclosing: Oop)
    requires
        old(vm).stack.wf(),
        old(vm).heap.is_method(method.0),
        old(vm).heap.method_at(method.0).has_ctx ==> old(vm).heap.has_room() && old(vm).stack@.has_slot(
            fp as int,
            FRAME_CONTEXT as int,
        ),
    ensures
        final(vm).stack.wf(),
        with_context(
            old(vm).heap.objects@,
            old(vm).heap.method_at(method.0),
            enclosing,
            old(vm).nil_obj,
            final(vm).heap.objects@,
        ),
        final(vm).stack@ == if old(vm).heap.method_at(method.0).has_ctx {
            old(vm).stack@.set(fp + FRAME_CONTEXT, Oop(place_word(old(vm).heap.objects@.len())))
        } else {
            old(vm).stack@
        },
        final(vm).nil_obj == old(vm).nil_obj,
        final(vm).regs == old(vm).regs,
        final(vm).next_serial == old(vm).next_serial,
{
    let m: MethodObj = vm.heap.method(method);
    if !m.has_ctx {
        return;
    }
    let slots: Vec<Oop> = nils(m.nctx, vm.nil_obj);
    let w: u64 = vm.heap.put(Obj::Context(ContextObj { home_hint: enclosing, slots }));
    Frame { fp }.set_context(&mut vm.stack, Oop(w));
}

// ── Activation ──────────────────────────────────────────────────────────

/// Activates a block in the interpreter. It fails where the number of arguments is not the block's.
#[verifier::spinoff_prover]
#[verifier::rlimit(40)]
pub fn activate_block_interp(vm: &mut VmState, closure: ClosureOop, argc: usize) -> (r: PrimResult)
    requires
        old(vm).stack.wf(),
        is_block_closure(&old(vm).heap, closure),
        old(vm).heap.method_at(old(vm).heap.closure_at(closure.0).method.0).argc == argc ==> can_activate(
            old(vm),
            closure,
        ),
    ensures
        final(vm).stack.wf(),
        if old(vm).heap.method_at(old(vm).heap.closure_at(closure.0).method.0).argc == argc {
            r is Activated && activated(
                old(vm).stack@,
                old(vm).heap.objects@,
                old(vm).regs,
                old(vm).next_serial,
                old(vm).nil_obj,
                closure,
                *final(vm),
            )
        } else {
            r is Fail && *final(vm) == *old(vm)
        },
{
    let blk: MethodOop = vm.heap.closure_method(closure);
    let m: MethodObj = vm.heap.method(blk);
    if m.argc != argc {
        return PrimResult::Fail;
    }
    let ghost st0 = vm.stack@;
    let ghost objs0 = vm.heap.objects@;
    let ghost c = vm.heap.closure_at(closure.0);
    let nil: Oop = vm.nil_obj;
    let fp: usize = vm.stack.sp;
    let saved_fp: i64 = vm.stack.fp as i64;
    let saved_bci: i64 = vm.regs.bci as i64;
    let receiver: Oop = vm.heap.copied(closure, 0);
    let serial: u32 = vm.next_serial;
    vm.next_serial = if serial < u32::MAX {
        serial + 1
    } else {
        0
    };
    vm.stack.push(Oop(blk.0));
    vm.stack.push(SmallInt::new(saved_fp).oop());
    vm.stack.push(SmallInt::new(saved_bci).oop());
    vm.stack.push(nil);
    vm.stack.push(receiver);
    vm.stack.push(SmallInt::new(serial as i64).oop());
    vm.stack.push(nil);
    let ghost st7 = vm.stack@;
    let mut i: usize = 0;
    while i < m.ntemps
        invariant
            i <= m.ntemps,
            vm.stack.wf(),
            vm.stack@.sp == st7.sp + i,
            vm.stack@.fp == st7.fp,
            vm.stack@.slots.len() == st7.slots.len(),
            st7.sp + m.ntemps <= st7.slots.len(),
            forall|k: int|
                0 <= k < st7.slots.len() ==> #[trigger] vm.stack@.slots[k] == (if st7.sp <= k < st7.sp + i {
                    nil
                } else {
                    st7.slots[k]
                }),
            vm.heap.objects@ == objs0,
            vm.heap == old(vm).heap,
            vm.nil_obj == nil,
            vm.regs == old(vm).regs,
            vm.next_serial == next_serial(serial),
        decreases m.ntemps - i,
    {
        vm.stack.push(nil);
        i += 1;
    }
    vm.stack.activate_frame(fp);
    let link: Oop = if m.captures_ctx {
        vm.heap.copied(closure, 1)
    } else {
        nil
    };
    let ghost st8 = vm.stack@;
    if m.has_ctx {
        maybe_alloc_context(vm, blk, fp, link);
    } else {
        Frame { fp }.set_context(&mut vm.stack, link);
    }
    let ghost st9 = vm.stack@;
    let ghost objs9 = vm.heap.objects@;
    let ghost context = context_word(objs0, m, link);
    proof {
        assert(st9 == st8.set(fp + FRAME_CONTEXT, context));
        if m.has_ctx {
            assert(objs9.drop_last()[word_place(closure.0) as int] == objs0[word_place(closure.0) as int]);
            assert(objs9.drop_last()[word_place(blk.0) as int] == objs0[word_place(blk.0) as int]);
        }
        assert(vm.heap.is_closure(closure.0) && vm.heap.closure_at(closure.0) == c);
        assert(vm.heap.is_method(blk.0) && vm.heap.method_at(blk.0) == m);
    }
    let base: usize = if m.captures_ctx {
        2
    } else {
        1
    };
    let n: usize = vm.heap.ncopied(closure) - base;
    let frame = Frame { fp };
    let mut k: usize = 0;
    while k < n
        invariant
            k <= n,
            n + base == c.copied@.len(),
            n <= m.ntemps,
            base == value_base(m),
            argc == m.argc,
            argc < fp,
            frame.fp == fp,
            fp == st9.sp - FRAME_TEMPS_BASE - m.ntemps,
            st9.sp <= st9.slots.len(),
            vm.stack.wf(),
            vm.stack@.sp == st9.sp,
            vm.stack@.fp == st9.fp,
            vm.stack@.has_frame == st9.has_frame,
            vm.stack@.slots.len() == st9.slots.len(),
            forall|j: int|
                0 <= j < st9.slots.len() ==> #[trigger] vm.stack@.slots[j] == (if fp + FRAME_TEMPS_BASE <= j < fp
                    + FRAME_TEMPS_BASE + k {
                    c.copied@[base + (j - fp - FRAME_TEMPS_BASE)]
                } else {
                    st9.slots[j]
                }),
            st9.slots[fp as int] == Oop(blk.0),
            vm.heap.is_closure(closure.0),
            vm.heap.closure_at(closure.0) == c,
            vm.heap.is_method(blk.0),
            vm.heap.method_at(blk.0) == m,
            vm.heap.objects@ == objs9,
            vm.nil_obj == nil,
            vm.regs == old(vm).regs,
            vm.next_serial == next_serial(serial),
        decreases n - k,
    {
        let v: Oop = vm.heap.copied(closure, base + k);
        assert(vm.stack@.slot(fp as int, FRAME_METHOD as int) == Oop(blk.0));
        assert(vm.stack.slots.len() == vm.stack@.slots.len());
        frame.set_temp(&mut vm.stack, &vm.heap, argc + k, v);
        k += 1;
    }
    vm.regs = Regs { method: Some(blk), bci: 0 };
    proof {
        let f = block_frame(c, m, saved_fp, saved_bci, context, serial, nil);
        assert(f.len() == FRAME_TEMPS_BASE + m.ntemps);
        assert(vm.stack@.slots =~= overlaid(st0.slots, st0.sp, f)) by {
            assert forall|j: int| 0 <= j < st0.slots.len() implies vm.stack@.slots[j] == overlaid(
                st0.slots,
                st0.sp,
                f,
            )[j] by {
                if st0.sp <= j < st0.sp + 7 {
                    assert(f[j - st0.sp] == seq![
                        Oop(c.method.0),
                        Oop(smi_word(saved_fp)),
                        Oop(smi_word(saved_bci)),
                        context,
                        c.copied@[0],
                        Oop(smi_word(serial as i64)),
                        nil,
                    ][j - st0.sp]);
                }
            }
        }
    }
    PrimResult::Activated
}

/// A method activated once more.
pub open spec fn bumped(m: MethodObj) -> MethodObj {
    MethodObj {
        invocations: if m.invocations < u32::MAX {
            (m.invocations + 1) as u32
        } else {
            m.invocations
        },
        ..m
    }
}

/// Counts an activation.
fn bump_invocation(heap: &mut Heap, blk: MethodOop) -> (n: u32)
    requires
        old(heap).is_method(blk.0),
    ensures
        final(heap).objects@ == old(heap).objects@.update(
            word_place(blk.0) as int,
            Obj::Method(bumped(old(heap).method_at(blk.0))),
        ),
        n == bumped(old(heap).method_at(blk.0)).invocations,
{
    let m: MethodObj = heap.method(blk);
    let n: u32 = if m.invocations < u32::MAX {
        m.invocations + 1
    } else {
        m.invocations
    };
    heap.set_method(blk, MethodObj { invocations: n, ..m });
    n
}

/// The objects after a block has been counted.
pub open spec fn counted(objs: Seq<Obj>, closure: ClosureOop) -> Seq<Obj> {
    let blk = closure_in(objs, closure.0).method;
    objs.update(word_place(blk.0) as int, Obj::Method(bumped(method_in(objs, blk.0))))
}

/// The objects after it has been decided never to compile a block.
pub open spec fn given_up(objs: Seq<Obj>, closure: ClosureOop) -> Seq<Obj> {
    let blk = closure_in(objs, closure.0).method;
    objs.update(
        word_place(blk.0) as int,
        Obj::Method(MethodObj { compile_disabled: true, ..method_in(objs, blk.0) }),
    )
}

/// Whether a block has been activated often enough to be compiled.
pub open spec fn due(m: MethodObj, jit: JitMode, enabled: bool) -> bool {
    match jit {
        JitMode::Threshold(n) => m.invocations >= n && !m.compile_disabled && enabled,
        JitMode::Off => false,
    }
}

/// The state is as it was but for the objects.
pub open spec fn only_objects(before: VmState, after: VmState, objs: Seq<Obj>) -> bool {
    &&& after.stack == before.stack
    &&& after.heap.objects@ == objs
    &&& after.nil_obj == before.nil_obj
    &&& after.regs == before.regs
    &&& after.next_serial == before.next_serial
}

/// Activates a block: the compiled code that there is for it is entered; a block that is due and
/// whose closure captures no values is compiled first; any other gets a frame. A block that is due
/// but captures values is never compiled.
#[verifier::spinoff_prover]
pub fn activate_block(
    vm: &mut VmState,
    closure: ClosureOop,
    argc: usize,
    jit: JitMode,
    found: Option<u64>,
    compile_enabled: bool,
) -> (r: BlockStep)
    requires
        old(vm).stack.wf(),
        is_block_closure(&old(vm).heap, closure),
        old(vm).heap.method_at(old(vm).heap.closure_at(closure.0).method.0).argc == argc ==> can_activate(
            old(vm),
            closure,
        ),
    ensures
        final(vm).stack.wf(),
        ({
            let objs = old(vm).heap.objects@;
            let c = closure_in(objs, closure.0);
            let m = method_in(objs, c.method.0);
            let objs1 = counted(objs, closure);
            let ready = due(bumped(m), jit, compile_enabled);
            if m.argc != argc {
                r == BlockStep::Done(PrimResult::Fail) && *final(vm) == *old(vm)
            } else if jit is Threshold && found is Some {
                r == BlockStep::Enter(found->0) && only_objects(*old(vm), *final(vm), objs1)
            } else if ready && c.copied@.len() == value_base(m) {
                r == BlockStep::Compile && only_objects(*old(vm), *final(vm), objs1)
            } else {
                r == BlockStep::Done(PrimResult::Activated) && activated(
                    old(vm).stack@,
                    if ready {
                        given_up(objs1, closure)
                    } else {
                        objs1
                    },
                    old(vm).regs,
                    old(vm).next_serial,
                    old(vm).nil_obj,
                    closure,
                    *final(vm),
                )
            }
        }),
{
    let blk: MethodOop = vm.heap.closure_method(closure);
    let m: MethodObj = vm.heap.method(blk);
    if m.argc != argc {
        return BlockStep::Done(PrimResult::Fail);
    }
    let count: u32 = bump_invocation(&mut vm.heap, blk);
    match jit {
        JitMode::Threshold(n) => {
            match found {
                Some(id) => {
                    return BlockStep::Enter(id);
                },
                None => {},
            }
            if count >= n && !m.compile_disabled && compile_enabled {
                let base: usize = if m.captures_ctx {
                    2
                } else {
                    1
                };
                if vm.heap.ncopied(closure) == base {
                    return BlockStep::Compile;
                }
                let now: MethodObj = vm.heap.method(blk);
                vm.heap.set_method(blk, MethodObj { compile_disabled: true, ..now });
            }
        },
        JitMode::Off => {},
    }
    BlockStep::Done(activate_block_interp(vm, closure, argc))
}

/// Goes on with an activation once compiling has been tried: the code is entered, or without any the
/// block gets a frame.
pub fn block_compiled(vm: &mut VmState, closure: ClosureOop, argc: usize, code: Option<u64>) -> (r: BlockStep)
    requires
        old(vm).stack.wf(),
        is_block_closure(&old(vm).heap, closure),
        old(vm).heap.method_at(old(vm).heap.closure_at(closure.0).method.0).argc == argc,
        can_activate(old(vm), closure),
    ensures
        final(vm).stack.wf(),
        match code {
            Some(id) => r == BlockStep::Enter(id) && *final(vm) == *old(vm),
            None => r == BlockStep::Done(PrimResult::Activated) && activated(
                old(vm).stack@,
                old(vm).heap.objects@,
                old(vm).regs,
                old(vm).next_serial,
                old(vm).nil_obj,
                closure,
                *final(vm),
            ),
        },
{
    match code {
        Some(id) => BlockStep::Enter(id),
        None => BlockStep::Done(activate_block_interp(vm, closure, argc)),
    }
}

/// Goes on with an activation once compiled code came back: its result is popped and answered; where
/// it gave up the block gets a frame; a non-local return goes on.
pub fn block_returned(vm: &mut VmState, closure: ClosureOop, argc: usize, outcome: EnterResult) -> (r: PrimResult)
    requires
        old(vm).stack.wf(),
        outcome is Completed ==> old(vm).stack@.sp > 0,
        outcome is Bailout ==> is_block_closure(&old(vm).heap, closure) && old(vm).heap.method_at(
            old(vm).heap.closure_at(closure.0).method.0,
        ).argc == argc && can_activate(old(vm), closure),
    ensures
        final(vm).stack.wf(),
        match outcome {
            EnterResult::Completed => r == PrimResult::Value(old(vm).stack@.top()) && final(vm).stack@
                == old(vm).stack@.drop_top() && final(vm).heap == old(vm).heap && final(vm).regs == old(vm).regs
                && final(vm).nil_obj == old(vm).nil_obj && final(vm).next_serial == old(vm).next_serial,
            EnterResult::Bailout => r is Activated && activated(
                old(vm).stack@,
                old(vm).heap.objects@,
                old(vm).regs,
                old(vm).next_serial,
                old(vm).nil_obj,
                closure,
                *final(vm),
            ),
            EnterResult::Nlr(step) => r == PrimResult::Nlr(step) && *final(vm) == *old(vm),
        },
{
    match outcome {
        EnterResult::Completed => {
            let result: Oop = vm.stack.get(vm.stack.sp - 1);
            vm.stack.sp = vm.stack.sp - 1;
            PrimResult::Value(result)
        },
        EnterResult::Bailout => activate_block_interp(vm, closure, argc),
        EnterResult::Nlr(step) => PrimResult::Nlr(step),
    }
}

// ── Closures ────────────────────────────────────────────────────────────

/// The home of a closure made in a frame: that of the block's own closure in a block's frame, and
/// otherwise the frame itself.
pub open spec fn home_in(st: StackV, heap: &Heap, fp: int) -> HomeRef {
    if st.frame_method(heap, fp).is_block {
        heap.closure_at(st.slots[st.receiver_place(heap, fp)].raw()).home
    } else {
        HomeRef { proc: 0, serial: serial_of(st.serial_word(fp)), fp: fp as usize }
    }
}

/// The frame at `fp` tells its home.
pub open spec fn knows_home(st: StackV, heap: &Heap, fp: int) -> bool {
    &&& st.has_method(heap, fp)
    &&& if st.frame_method(heap, fp).is_block {
        0 <= st.receiver_place(heap, fp) && heap.is_closure(st.slots[st.receiver_place(heap, fp)].raw())
    } else {
        st.has_serial(fp)
    }
}

/// The home of a closure made now.
pub fn home_ref_for_new_closure(vm: &VmState) -> (r: HomeRef)
    requires
        vm.stack.wf(),
        knows_home(vm.stack@, &vm.heap, vm.stack@.fp),
    ensures
        r == home_in(vm.stack@, &vm.heap, vm.stack@.fp),
{
    let frame = Frame { fp: vm.stack.fp };
    let m: MethodOop = frame.method(&vm.stack, &vm.heap);
    if vm.heap.method(m).is_block {
        let slot: usize = frame.receiver_slot(&vm.stack, &vm.heap);
        match vm.heap.closure_of(vm.stack.get(slot)) {
            Some(c) => vm.heap.closure_home(c),
            None => HomeRef { proc: 0, serial: 0, fp: 0 },
        }
    } else {
        HomeRef { proc: 0, serial: frame.serial(&vm.stack), fp: vm.stack.fp }
    }
}

/// What a closure holds: the frame's receiver, its context where the block captures it, then the
/// values on top of the stack in the order they were pushed.
pub open spec fn captured_words(st: StackV, m: MethodObj, n: int) -> Seq<Oop> {
    let values = st.slots.subrange(st.sp - n, st.sp);
    if m.captures_ctx {
        seq![st.slot(st.fp, FRAME_RECEIVER as int), st.slot(st.fp, FRAME_CONTEXT as int)] + values
    } else {
        seq![st.slot(st.fp, FRAME_RECEIVER as int)] + values
    }
}

/// Makes a closure of a block in the active frame, with the top `n_value_captures` words of the
/// stack, which it pops.
pub fn make_closure(vm: &mut VmState, blk: MethodOop, n_value_captures: usize) -> (r: ClosureOop)
    requires
        old(vm).stack.wf(),
        old(vm).heap.has_room(),
        old(vm).heap.is_method(blk.0),
        old(vm).heap.method_at(blk.0).is_block,
        old(vm).stack@.sp >= n_value_captures,
        old(vm).stack@.has_slot(old(vm).stack@.fp, FRAME_RECEIVER as int),
        knows_home(old(vm).stack@, &old(vm).heap, old(vm).stack@.fp),
    ensures
        final(vm).stack.wf(),
        final(vm).stack@ == (StackV { sp: old(vm).stack@.sp - n_value_captures, ..old(vm).stack@ }),
        r.0 == place_word(old(vm).heap.objects@.len()),
        final(vm).heap.added(&old(vm).heap),
        final(vm).heap.is_closure(r.0),
        ({
            let c = final(vm).heap.closure_at(r.0);
            &&& c.method == blk
            &&& c.home == home_in(old(vm).stack@, &old(vm).heap, old(vm).stack@.fp)
            &&& c.copied@ == captured_words(
                old(vm).stack@,
                old(vm).heap.method_at(blk.0),
                n_value_captures as int,
            )
        }),
        final(vm).nil_obj == old(vm).nil_obj,
        final(vm).regs == old(vm).regs,
        final(vm).next_serial == old(vm).next_serial,
{
    let m: MethodObj = vm.heap.method(blk);
    let home: HomeRef = home_ref_for_new_closure(vm);
    let frame = Frame { fp: vm.stack.fp };
    let mut copied: Vec<Oop> = Vec::new();
    copied.push(frame.receiver(&vm.stack));
    if m.captures_ctx {
        copied.push(frame.context(&vm.stack));
    }
    let ghost head = copied@;
    let sp: usize = vm.stack.sp;
    let base: usize = sp - n_value_captures;
    let mut i: usize = base;
    assert(copied@ =~= head + vm.stack@.slots.subrange(base as int, base as int));
    while i < sp
        invariant
            base <= i <= sp,
            sp <= vm.stack@.slots.len(),
            copied@ == head + vm.stack@.slots.subrange(base as int, i as int),
        decreases sp - i,
    {
        copied.push(vm.stack.get(i));
        i += 1;
        assert(copied@ =~= head + vm.stack@.slots.subrange(base as int, i as int));
    }
    vm.stack.sp = base;
    let ghost words = copied@;
    let w: u64 = vm.heap.put(Obj::Closure(ClosureObj { method: blk, home, copied }));
    assert(words =~= captured_words(old(vm).stack@, m, n_value_captures as int));
    ClosureOop(w)
}

// ── Laws ────────────────────────────────────────────────────────────────

/// An activated block's frame is well formed, and so of use to everything that reads frames.
pub proof fn law_activated_frame_is_well_formed(before: VmState, after: VmState, closure: ClosureOop)
    requires
        is_block_closure(&before.heap, closure),
        before.heap.method_at(before.heap.closure_at(closure.0).method.0).is_block,
        can_activate(&before, closure),
        activated(
            before.stack@,
            before.heap.objects@,
            before.regs,
            before.next_serial,
            before.nil_obj,
            closure,
            after,
        ),
    ensures
        after.stack@.fault(&after.heap, after.stack@.fp) is None,
{
    lemma_objects_kept(before, after, closure);
    lemma_frame_words(before, after, closure);
    law_small_integers_read_back(before.stack@.fp as i64);
    law_small_integers_read_back(before.regs.bci as i64);
    law_small_integers_read_back(before.next_serial as i64);
}

/// A closure made in an activated block's frame has the home of the block's own closure.
pub proof fn law_home_is_passed_on(before: VmState, after: VmState, closure: ClosureOop)
    requires
        is_block_closure(&before.heap, closure),
        before.heap.method_at(before.heap.closure_at(closure.0).method.0).is_block,
        can_activate(&before, closure),
        activated(
            before.stack@,
            before.heap.objects@,
            before.regs,
            before.next_serial,
            before.nil_obj,
            closure,
            after,
        ),
    ensures
        knows_home(after.stack@, &after.heap, after.stack@.fp),
        home_in(after.stack@, &after.heap, after.stack@.fp) == before.heap.closure_at(closure.0).home,
{
    lemma_objects_kept(before, after, closure);
    lemma_frame_words(before, after, closure);
}

/// A block without a context of its own shares the one around it; a block with one is linked to it.
pub proof fn law_contexts_are_linked(before: VmState, after: VmState, closure: ClosureOop)
    requires
        is_block_closure(&before.heap, closure),
        can_activate(&before, closure),
        activated(
            before.stack@,
            before.heap.objects@,
            before.regs,
            before.next_serial,
            before.nil_obj,
            closure,
            after,
        ),
    ensures
        ({
            let c = before.heap.closure_at(closure.0);
            let m = before.heap.method_at(c.method.0);
            let link = enclosing(c, m, before.nil_obj);
            let context = after.stack@.slot(after.stack@.fp, FRAME_CONTEXT as int);
            if m.has_ctx {
                after.heap.is_context(context.raw()) && after.heap.context_at(context.raw()).home_hint == link
            } else {
                context == link
            }
        }),
{
    lemma_frame_words(before, after, closure);
}

/// What an activated block finds in its variables: its arguments as they were pushed, then the values
/// that its closure captured, in their order, then nil. Its receiver is the closure's first word. What
/// lies below the frame is as it was.
#[verifier::spinoff_prover]
pub proof fn law_block_variables(before: VmState, after: VmState, closure: ClosureOop)
    requires
        is_block_closure(&before.heap, closure),
        can_activate(&before, closure),
        activated(
            before.stack@,
            before.heap.objects@,
            before.regs,
            before.next_serial,
            before.nil_obj,
            closure,
            after,
        ),
    ensures
        ({
            let c = before.heap.closure_at(closure.0);
            let m = before.heap.method_at(c.method.0);
            let s = after.stack@;
            let first = if m.captures_ctx {
                2int
            } else {
                1
            };
            let n = c.copied@.len() - first;
            &&& s.fp == before.stack@.sp
            &&& s.sp == s.fp + 7 + m.ntemps
            &&& s.slot(s.fp, 4) == c.copied@[0]
            &&& forall|t: int|
                0 <= t < m.argc + m.ntemps ==> #[trigger] s.slots[s.temp_place(&after.heap, s.fp, t)] == if t < m.argc {
                    before.stack@.slots[before.stack@.sp - m.argc + t]
                } else if t < m.argc + n {
                    c.copied@[first + (t - m.argc)]
                } else {
                    before.nil_obj
                }
            &&& forall|i: int| 0 <= i < before.stack@.sp ==> #[trigger] s.slots[i] == before.stack@.slots[i]
            &&& after.regs.method == Some(c.method)
            &&& after.regs.bci == 0
        }),
{
    lemma_objects_kept(before, after, closure);
    lemma_frame_words(before, after, closure);
    let c = before.heap.closure_at(closure.0);
    let m = before.heap.method_at(c.method.0);
    let link = enclosing(c, m, before.nil_obj);
    let f = block_frame(
        c,
        m,
        before.stack@.fp as i64,
        before.regs.bci as i64,
        context_word(before.heap.objects@, m, link),
        before.next_serial,
        before.nil_obj,
    );
    let s = after.stack@;
    let first = value_base(m);
    let n = c.copied@.len() - first;
    let values = values_of(c, m);
    assert(f.len() == FRAME_TEMPS_BASE + m.ntemps);
    assert(s.frame_method(&after.heap, s.fp) == m);
    assert forall|t: int| 0 <= t < m.argc + m.ntemps implies #[trigger] s.slots[s.temp_place(&after.heap, s.fp, t)]
        == if t < m.argc {
        before.stack@.slots[before.stack@.sp - m.argc + t]
    } else if t < m.argc + n {
        c.copied@[first + (t - m.argc)]
    } else {
        before.nil_obj
    } by {
        let at = s.temp_place(&after.heap, s.fp, t);
        if t >= m.argc {
            let k = t - m.argc;
            assert(at == s.fp + 7 + k);
            assert(s.slots[at] == f[7 + k]);
            if k < n {
                assert(f[7 + k] == values[k]);
                assert(values[k] == c.copied@[first + k]);
            }
        }
    }
}

/// What is captured is what is found: a closure made in a frame holds the frame's receiver, the frame's
/// context where its block captures it, and the words that were on top of the stack, in their order; an
/// activation reads them from there.
pub proof fn law_captures_are_found(st: StackV, c: ClosureObj, m: MethodObj, n: int, nil: Oop)
    requires
        0 <= n <= st.sp <= st.slots.len(),
        c.copied@ == captured_words(st, m, n),
    ensures
        c.copied@[0] == st.slot(st.fp, 4),
        enclosing(c, m, nil) == if m.captures_ctx {
            st.slot(st.fp, 3)
        } else {
            nil
        },
        values_of(c, m) == st.slots.subrange(st.sp - n, st.sp),
        c.copied@.len() == n + if m.captures_ctx {
            2int
        } else {
            1
        },
{
    assert(values_of(c, m) =~= st.slots.subrange(st.sp - n, st.sp));
}

proof fn lemma_objects_kept(before: VmState, after: VmState, closure: ClosureOop)
    requires
        is_block_closure(&before.heap, closure),
        activated(
            before.stack@,
            before.heap.objects@,
            before.regs,
            before.next_serial,
            before.nil_obj,
            closure,
            after,
        ),
    ensures
        is_block_closure(&after.heap, closure),
        after.heap.closure_at(closure.0) == before.heap.closure_at(closure.0),
        after.heap.method_at(before.heap.closure_at(closure.0).method.0) == before.heap.method_at(
            before.heap.closure_at(closure.0).method.0,
        ),
{
    let objs = before.heap.objects@;
    let c = before.heap.closure_at(closure.0);
    if before.heap.method_at(c.method.0).has_ctx {
        let d = after.heap.objects@.drop_last();
        assert(d[word_place(closure.0) as int] == objs[word_place(closure.0) as int]);
        assert(d[word_place(c.method.0) as int] == objs[word_place(c.method.0) as int]);
    }
}

proof fn lemma_frame_words(before: VmState, after: VmState, closure: ClosureOop)
    requires
        is_block_closure(&before.heap, closure),
        can_activate(&before, closure),
        activated(
            before.stack@,
            before.heap.objects@,
            before.regs,
            before.next_serial,
            before.nil_obj,
            closure,
            after,
        ),
    ensures
        ({
            let c = before.heap.closure_at(closure.0);
            let m = before.heap.method_at(c.method.0);
            let s = after.stack@;
            let link = enclosing(c, m, before.nil_obj);
            &&& s.slot(s.fp, FRAME_METHOD as int) == Oop(c.method.0)
            &&& s.slot(s.fp, 1) == Oop(smi_word(before.stack@.fp as i64))
            &&& s.slot(s.fp, 2) == Oop(smi_word(before.regs.bci as i64))
            &&& s.slot(s.fp, FRAME_CONTEXT as int) == context_word(before.heap.objects@, m, link)
            &&& s.slot(s.fp, FRAME_RECEIVER as int) == c.copied@[0]
            &&& s.slot(s.fp, FRAME_SERIAL as int) == Oop(smi_word(before.next_serial as i64))
            &&& s.slot(s.fp, FRAME_MARKER as int) == before.nil_obj
            &&& s.slots[s.fp - m.argc - 1] == Oop(closure.0)
        }),
{
    let c = before.heap.closure_at(closure.0);
    let m = before.heap.method_at(c.method.0);
    let link = enclosing(c, m, before.nil_obj);
    let f = block_frame(
        c,
        m,
        before.stack@.fp as i64,
        before.regs.bci as i64,
        context_word(before.heap.objects@, m, link),
        before.next_serial,
        before.nil_obj,
    );
    assert(f.len() == FRAME_TEMPS_BASE + m.ntemps);
    let s = after.stack@;
    assert(s.slots[s.fp] == f[0]);
    assert(s.slots[s.fp + 1] == f[1]);
    assert(s.slots[s.fp + 2] == f[2]);
    assert(s.slots[s.fp + 3] == f[3]);
    assert(s.slots[s.fp + 4] == f[4]);
    assert(s.slots[s.fp + 5] == f[5]);
    assert(s.slots[s.fp + 6] == f[6]);
}

} // verus!
