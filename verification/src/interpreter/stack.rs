//! The process stack and its frames.
//!
//! The stack grows upwards and is addressed by index. Every slot is a word; the links between frames
//! are small integers. A frame starts at `fp` with its fixed slots, then come its own temporaries;
//! its arguments stand below it, under them the word that the message was sent to.
use vstd::prelude::*;
use crate::memory::heap::Heap;
use crate::oops::{MethodOop, Oop, SmallInt};
#[allow(unused_imports)]
use crate::oops::{is_small, law_small_integers_read_back, smi_word, word_value};
use crate::text::{push_dec, push_hex};
#[allow(unused_imports)]
use crate::text::{dec_text, hex_text};

verus! {

/// The usual capacity of a stack, in slots.
pub const DEFAULT_STACK_CAPACITY: usize = 65536;

pub const FRAME_METHOD: usize = 0;

pub const FRAME_SAVED_FP: usize = 1;

pub const FRAME_SAVED_BCI: usize = 2;

pub const FRAME_CONTEXT: usize = 3;

pub const FRAME_RECEIVER: usize = 4;

pub const FRAME_SERIAL: usize = 5;

pub const FRAME_MARKER: usize = 6;

/// The fixed slots of a frame.
pub const FRAME_TEMPS_BASE: usize = 7;

/// The serial number in its slot.
pub const FRAME_SERIAL_MASK: i64 = 0xFFFF_FFFF;

/// The marker's kind in the serial slot.
pub const FRAME_MARKER_KIND_MASK: i64 = 0x1_0000_0000;

/// The saved frame of an entry frame.
pub const ENTRY_FRAME_SENTINEL: i64 = -1;

// ── Auditing writes ─────────────────────────────────────────────────────

/// Whether words written to the stack are checked as they are written.
#[derive(Clone, Copy, Debug, PartialEq, Eq, Structural)]
pub struct StackAudit {
    pub enabled: bool,
    /// While a collection leaves objects unreadable.
    pub suspended: bool,
}

/// Suspends the checks, or resumes them.
pub fn stack_audit_suspend(audit: &mut StackAudit, on: bool)
    ensures
        final(audit).suspended == on,
        final(audit).enabled == old(audit).enabled,
{
    audit.suspended = on;
}

/// A small integer that looks like an address of code or of the native stack.
pub open spec fn address_like(w: u64) -> bool {
    w % 4 == 0 && 0x1_0000_0000 <= w < 0x1_7000_0000
}

/// A word that can be an object's mark: the mark tag, and the bit after it.
pub open spec fn mark_like(w: u64) -> bool {
    w % 8 == 7
}

pub open spec fn address_text(via: Seq<char>, idx: nat, raw: nat) -> Seq<char> {
    "STACK-WRITE AUDIT ("@ + via + "): slot "@ + dec_text(idx) + " <- 0x"@ + hex_text(raw, 1)
        + ", a \"smi\" in the code/stack address band — dead-frame residue leaking as a value"@
}

pub open spec fn mark_text(via: Seq<char>, idx: nat, raw: nat, mark: nat) -> Seq<char> {
    "STACK-WRITE AUDIT ("@ + via + "): slot "@ + dec_text(idx) + " <- 0x"@ + hex_text(raw, 1)
        + ", whose target mark word 0x"@ + hex_text(mark, 1)
        + " is implausible — this write is the corruption, not its later GC discovery"@
}

/// What an audit says of a word about to be written; `mark` is the mark word of the object that a
/// pointer points to.
pub open spec fn audited(audit: StackAudit, idx: usize, v: Oop, mark: u64, via: Seq<char>) -> Option<Seq<char>> {
    if !audit.enabled || audit.suspended {
        None
    } else if !v.is_mem() {
        if address_like(v.raw()) {
            Some(address_text(via, idx as nat, v.raw() as nat))
        } else {
            None
        }
    } else if !mark_like(mark) {
        Some(mark_text(via, idx as nat, v.raw() as nat, mark as nat))
    } else {
        None
    }
}

pub fn audit_stack_write(audit: &StackAudit, idx: usize, v: Oop, mark: u64, via: &str) -> (r: Option<String>)
    ensures
        match r {
            Some(m) => audited(*audit, idx, v, mark, via@) == Some(m@),
            None => audited(*audit, idx, v, mark, via@) is None,
        },
{
    if !audit.enabled || audit.suspended {
        return None;
    }
    let raw: u64 = v.raw();
    if !v.is_mem() {
        if raw % 4 == 0 && 0x1_0000_0000 <= raw && raw < 0x1_7000_0000 {
            let mut m: String = String::new();
            m.append("STACK-WRITE AUDIT (");
            m.append(via);
            m.append("): slot ");
            push_dec(&mut m, idx as u64);
            m.append(" <- 0x");
            push_hex(&mut m, raw, 1);
            m.append(", a \"smi\" in the code/stack address band — dead-frame residue leaking as a value");
            assert(m@ =~= address_text(via@, idx as nat, raw as nat));
            return Some(m);
        }
        return None;
    }
    if mark % 8 != 7 {
        let mut m: String = String::new();
        m.append("STACK-WRITE AUDIT (");
        m.append(via);
        m.append("): slot ");
        push_dec(&mut m, idx as u64);
        m.append(" <- 0x");
        push_hex(&mut m, raw, 1);
        m.append(", whose target mark word 0x");
        push_hex(&mut m, mark, 1);
        m.append(" is implausible — this write is the corruption, not its later GC discovery");
        assert(m@ =~= mark_text(via@, idx as nat, raw as nat, mark as nat));
        return Some(m);
    }
    None
}

// ── The stack ───────────────────────────────────────────────────────────

/// The stack is full.
#[derive(Clone, Copy, Debug, PartialEq, Eq, Structural)]
pub struct StackOverflow;

/// Whether a frame was active, and where.
#[derive(Clone, Copy, Debug, PartialEq, Eq, Structural)]
pub struct FrameActivation {
    fp: usize,
    has_frame: bool,
}

impl FrameActivation {
    pub closed spec fn spec_fp(self) -> usize {
        self.fp
    }

    pub closed spec fn spec_was_active(self) -> bool {
        self.has_frame
    }

    /// Whether a frame was active.
    pub fn was_active(self) -> (r: bool)
        ensures
            r == self.spec_was_active(),
    {
        self.has_frame
    }
}

/// A stack of words. Slots from `sp` on are free.
#[derive(Debug)]
pub struct ProcessStack {
    pub slots: Vec<Oop>,
    pub sp: usize,
    pub fp: usize,
    /// Without a frame `fp` means nothing.
    pub has_frame: bool,
}

/// A stack, as the contracts see it.
#[verifier::ext_equal]
pub struct StackV {
    pub slots: Seq<Oop>,
    pub sp: int,
    pub fp: int,
    pub has_frame: bool,
}

impl StackV {
    /// A word written to a slot.
    pub open spec fn set(self, i: int, v: Oop) -> StackV {
        StackV { slots: self.slots.update(i, v), ..self }
    }

    /// A word pushed.
    pub open spec fn push(self, v: Oop) -> StackV {
        StackV { sp: self.sp + 1, ..self.set(self.sp, v) }
    }

    /// The top word dropped.
    pub open spec fn drop_top(self) -> StackV {
        StackV { sp: self.sp - 1, ..self }
    }

    pub open spec fn top(self) -> Oop {
        self.slots[self.sp - 1]
    }

    /// The lowest that `sp` may go: the end of the active frame's temporaries.
    pub open spec fn floor(self, heap: &Heap) -> int {
        if !self.has_frame {
            0
        } else if 0 <= self.fp < self.slots.len() && heap.is_method(self.slots[self.fp].raw()) {
            self.fp + FRAME_TEMPS_BASE + heap.method_at(self.slots[self.fp].raw()).ntemps
        } else {
            self.fp + FRAME_TEMPS_BASE
        }
    }
}

impl View for ProcessStack {
    type V = StackV;

    open spec fn view(&self) -> StackV {
        StackV { slots: self.slots@, sp: self.sp as int, fp: self.fp as int, has_frame: self.has_frame }
    }
}

impl ProcessStack {
    /// The stack is within its slots.
    pub open spec fn wf(&self) -> bool {
        self.sp <= self.slots.len()
    }

    pub fn with_capacity(capacity: usize) -> (st: ProcessStack)
        ensures
            st.wf(),
            st@.slots == Seq::new(capacity as nat, |i: int| Oop(0)),
            st@.sp == 0,
            st@.fp == 0,
            !st@.has_frame,
    {
        let mut slots: Vec<Oop> = Vec::new();
        let mut i: usize = 0;
        while i < capacity
            invariant
                i <= capacity,
                slots@ =~= Seq::new(i as nat, |i: int| Oop(0)),
            decreases capacity - i,
        {
            slots.push(Oop(0));
            i += 1;
        }
        ProcessStack { slots, sp: 0, fp: 0, has_frame: false }
    }

    /// Makes the frame at `fp` the active one.
    pub fn activate_frame(&mut self, fp: usize)
        requires
            old(self).wf(),
        ensures
            final(self).wf(),
            final(self)@ == (StackV { fp: fp as int, has_frame: true, ..old(self)@ }),
    {
        self.fp = fp;
        self.has_frame = true;
    }

    /// Whether a frame is active.
    pub fn has_frame(&self) -> (r: bool)
        ensures
            r == self@.has_frame,
    {
        self.has_frame
    }

    /// Leaves no frame active.
    pub fn deactivate(&mut self)
        requires
            old(self).wf(),
        ensures
            final(self).wf(),
            final(self)@ == (StackV { has_frame: false, ..old(self)@ }),
    {
        self.has_frame = false;
    }

    /// Goes back to a state seen before, whatever has been pushed since.
    pub fn restore_baseline(&mut self, sp: usize, fp: usize, has_frame: bool)
        requires
            old(self).wf(),
            sp <= old(self)@.slots.len(),
        ensures
            final(self).wf(),
            final(self)@ == (StackV { sp: sp as int, fp: fp as int, has_frame, ..old(self)@ }),
    {
        self.sp = sp;
        self.fp = fp;
        self.has_frame = has_frame;
    }

    /// Which frame is active.
    pub fn save_activation(&self) -> (r: FrameActivation)
        ensures
            r.spec_fp() == self@.fp,
            r.spec_was_active() == self@.has_frame,
    {
        FrameActivation { fp: self.fp, has_frame: self.has_frame }
    }

    /// Makes that frame the active one again.
    pub fn restore_activation(&mut self, saved: FrameActivation)
        requires
            old(self).wf(),
        ensures
            final(self).wf(),
            final(self)@ == (StackV {
                fp: saved.spec_fp() as int,
                has_frame: saved.spec_was_active(),
                ..old(self)@
            }),
    {
        self.fp = saved.fp;
        self.has_frame = saved.has_frame;
    }

    pub fn capacity(&self) -> (n: usize)
        ensures
            n == self@.slots.len(),
    {
        self.slots.len()
    }

    pub fn get(&self, idx: usize) -> (v: Oop)
        requires
            idx < self@.slots.len(),
        ensures
            v == self@.slots[idx as int],
    {
        self.slots[idx]
    }

    pub fn set(&mut self, idx: usize, v: Oop)
        requires
            old(self).wf(),
            idx < old(self)@.slots.len(),
        ensures
            final(self).wf(),
            final(self)@ == old(self)@.set(idx as int, v),
    {
        self.slots.set(idx, v);
    }

    /// Pushes a word, if there is room.
    pub fn try_push(&mut self, v: Oop) -> (r: Result<(), StackOverflow>)
        requires
            old(self).wf(),
        ensures
            final(self).wf(),
            r is Ok <==> old(self)@.sp < old(self)@.slots.len(),
            r is Ok ==> final(self)@ == old(self)@.push(v),
            r is Err ==> final(self)@ == old(self)@,
    {
        if self.sp >= self.slots.len() {
            return Err(StackOverflow);
        }
        self.slots.set(self.sp, v);
        self.sp = self.sp + 1;
        Ok(())
    }

    /// Pushes a word. There has to be room.
    pub fn push(&mut self, v: Oop)
        requires
            old(self).wf(),
            old(self)@.sp < old(self)@.slots.len(),
        ensures
            final(self).wf(),
            final(self)@ == old(self)@.push(v),
    {
        let _ = self.try_push(v);
    }

    /// Pops the top word, which has to be an operand.
    pub fn pop(&mut self, heap: &Heap) -> (v: Oop)
        requires
            old(self).wf(),
            old(self)@.sp > old(self)@.floor(heap),
            old(self)@.sp > 0,
        ensures
            final(self).wf(),
            v == old(self)@.top(),
            final(self)@ == old(self)@.drop_top(),
    {
        self.sp = self.sp - 1;
        self.slots[self.sp]
    }

    pub fn top(&self) -> (v: Oop)
        requires
            self.wf(),
            self@.sp > 0,
        ensures
            v == self@.top(),
    {
        self.slots[self.sp - 1]
    }
}

// ── Frames ──────────────────────────────────────────────────────────────

/// What a frame's marker is for.
#[derive(Clone, Copy, Debug, PartialEq, Eq, Structural)]
pub enum MarkerKind {
    Ensure,
    IfCurtailed,
}

/// A frame, by its place.
#[derive(Clone, Copy, Debug, PartialEq, Eq, Structural)]
pub struct Frame {
    pub fp: usize,
}

/// Why a frame is not well formed.
#[derive(Clone, Copy, Debug, PartialEq, Eq, Structural)]
pub enum FrameFault {
    /// The fixed slots are not all on the stack.
    Truncated,
    NotAMethod,
    SavedFp,
    SavedBci,
    Serial,
    /// The arguments and the receiver do not fit below the frame.
    NoRoomForArgs,
    /// A block's frame: no closure below the arguments, or not with the frame's receiver.
    BlockShape,
    /// The receiver is not the one below the arguments.
    Receiver,
    /// The temporaries are not all on the stack.
    Temps,
}

/// The serial number in a serial slot's number.
pub open spec fn serial_of(word: i64) -> u32 {
    (word & FRAME_SERIAL_MASK) as u32
}

pub open spec fn kind_of(word: i64) -> MarkerKind {
    if word & FRAME_MARKER_KIND_MASK != 0 {
        MarkerKind::IfCurtailed
    } else {
        MarkerKind::Ensure
    }
}

/// A serial slot's number with another kind in it.
pub open spec fn with_kind(word: i64, kind: MarkerKind) -> i64 {
    (word & FRAME_SERIAL_MASK) | match kind {
        MarkerKind::Ensure => 0,
        MarkerKind::IfCurtailed => FRAME_MARKER_KIND_MASK,
    }
}

impl StackV {
    pub open spec fn slot(self, fp: int, k: int) -> Oop {
        self.slots[fp + k]
    }

    /// A slot of a frame is on the stack.
    pub open spec fn has_slot(self, fp: int, k: int) -> bool {
        0 <= fp + k < self.slots.len()
    }

    /// The method of a frame.
    pub open spec fn frame_method(self, heap: &Heap, fp: int) -> crate::memory::heap::MethodObj {
        heap.method_at(self.slot(fp, FRAME_METHOD as int).raw())
    }

    /// The frame at `fp` has a method.
    pub open spec fn has_method(self, heap: &Heap, fp: int) -> bool {
        self.has_slot(fp, FRAME_METHOD as int) && heap.is_method(self.slot(fp, FRAME_METHOD as int).raw())
    }

    /// The number in a frame's serial slot.
    pub open spec fn serial_word(self, fp: int) -> i64 {
        word_value(self.slot(fp, FRAME_SERIAL as int).raw())
    }

    pub open spec fn has_serial(self, fp: int) -> bool {
        self.has_slot(fp, FRAME_SERIAL as int) && self.slot(fp, FRAME_SERIAL as int).is_smi()
    }

    /// The place of an argument or temporary: arguments below the frame, temporaries after its fixed
    /// slots.
    pub open spec fn temp_place(self, heap: &Heap, fp: int, t: int) -> int {
        let argc = self.frame_method(heap, fp).argc as int;
        if t < argc {
            fp - argc + t
        } else {
            fp + FRAME_TEMPS_BASE + (t - argc)
        }
    }

    /// There is such an argument or temporary, on the stack.
    pub open spec fn has_temp(self, heap: &Heap, fp: int, t: int) -> bool {
        let m = self.frame_method(heap, fp);
        &&& self.has_method(heap, fp)
        &&& 0 <= t < m.argc + m.ntemps
        &&& 0 <= self.temp_place(heap, fp, t) < self.slots.len()
    }

    /// The place of the word that the message was sent to.
    pub open spec fn receiver_place(self, heap: &Heap, fp: int) -> int {
        fp - self.frame_method(heap, fp).argc - 1
    }

    /// The first thing wrong with a frame.
    pub open spec fn fault(self, heap: &Heap, fp: int) -> Option<FrameFault> {
        let m = self.frame_method(heap, fp);
        let below = self.slots[self.receiver_place(heap, fp)];
        if fp + FRAME_TEMPS_BASE > self.sp {
            Some(FrameFault::Truncated)
        } else if !self.has_method(heap, fp) {
            Some(FrameFault::NotAMethod)
        } else if !self.slot(fp, FRAME_SAVED_FP as int).is_smi() {
            Some(FrameFault::SavedFp)
        } else if !self.slot(fp, FRAME_SAVED_BCI as int).is_smi() {
            Some(FrameFault::SavedBci)
        } else if !self.slot(fp, FRAME_SERIAL as int).is_smi() {
            Some(FrameFault::Serial)
        } else if fp <= m.argc {
            Some(FrameFault::NoRoomForArgs)
        } else if m.is_block && !(heap.is_closure(below.raw()) && heap.closure_at(below.raw()).copied@.len() > 0
            && self.slot(fp, FRAME_RECEIVER as int) == heap.closure_at(below.raw()).copied@[0]) {
            Some(FrameFault::BlockShape)
        } else if !m.is_block && self.slot(fp, FRAME_RECEIVER as int) != below {
            Some(FrameFault::Receiver)
        } else if fp + FRAME_TEMPS_BASE + m.ntemps > self.sp {
            Some(FrameFault::Temps)
        } else {
            None
        }
    }
}

impl Frame {
    /// The method that is activated.
    pub fn method(self, st: &ProcessStack, heap: &Heap) -> (m: MethodOop)
        requires
            st.wf(),
            st@.has_method(heap, self.fp as int),
        ensures
            m.0 == st@.slot(self.fp as int, FRAME_METHOD as int).raw(),
            heap.is_method(m.0),
    {
        match heap.method_of(st.get(self.fp + FRAME_METHOD)) {
            Some(m) => m,
            None => MethodOop(0),
        }
    }

    /// The number in a slot that holds one.
    fn number(self, st: &ProcessStack, k: usize) -> (v: i64)
        requires
            st.wf(),
            st@.has_slot(self.fp as int, k as int),
            st@.slot(self.fp as int, k as int).is_smi(),
        ensures
            v == word_value(st@.slot(self.fp as int, k as int).raw()),
    {
        match SmallInt::try_from(st.get(self.fp + k)) {
            Some(s) => s.value(),
            None => 0,
        }
    }

    /// The frame to go back to.
    pub fn saved_fp(self, st: &ProcessStack) -> (v: i64)
        requires
            st.wf(),
            st@.has_slot(self.fp as int, FRAME_SAVED_FP as int),
            st@.slot(self.fp as int, FRAME_SAVED_FP as int).is_smi(),
        ensures
            v == word_value(st@.slot(self.fp as int, FRAME_SAVED_FP as int).raw()),
    {
        self.number(st, FRAME_SAVED_FP)
    }

    /// The instruction to go back to.
    pub fn saved_bci(self, st: &ProcessStack) -> (v: usize)
        requires
            st.wf(),
            st@.has_slot(self.fp as int, FRAME_SAVED_BCI as int),
            st@.slot(self.fp as int, FRAME_SAVED_BCI as int).is_smi(),
        ensures
            v == word_value(st@.slot(self.fp as int, FRAME_SAVED_BCI as int).raw()) as usize,
    {
        self.number(st, FRAME_SAVED_BCI) as usize
    }

    /// The word in a slot, wherever the frame may be.
    fn slot_opt(self, st: &ProcessStack, k: usize) -> (r: Option<Oop>)
        requires
            st.wf(),
        ensures
            match r {
                Some(v) => st@.has_slot(self.fp as int, k as int) && v == st@.slot(self.fp as int, k as int),
                None => !st@.has_slot(self.fp as int, k as int),
            },
    {
        match self.fp.checked_add(k) {
            Some(idx) => if idx < st.capacity() {
                Some(st.get(idx))
            } else {
                None
            },
            None => None,
        }
    }

    /// The frame to go back to, if there is one here.
    pub fn saved_fp_opt(self, st: &ProcessStack) -> (r: Option<i64>)
        requires
            st.wf(),
        ensures
            r == (if st@.has_slot(self.fp as int, FRAME_SAVED_FP as int) && st@.slot(
                self.fp as int,
                FRAME_SAVED_FP as int,
            ).is_smi() {
                Some(word_value(st@.slot(self.fp as int, FRAME_SAVED_FP as int).raw()))
            } else {
                None
            }),
    {
        match self.slot_opt(st, FRAME_SAVED_FP) {
            Some(v) => match SmallInt::try_from(v) {
                Some(s) => Some(s.value()),
                None => None,
            },
            None => None,
        }
    }

    pub fn saved_bci_opt(self, st: &ProcessStack) -> (r: Option<usize>)
        requires
            st.wf(),
        ensures
            r == (if st@.has_slot(self.fp as int, FRAME_SAVED_BCI as int) && st@.slot(
                self.fp as int,
                FRAME_SAVED_BCI as int,
            ).is_smi() {
                Some(word_value(st@.slot(self.fp as int, FRAME_SAVED_BCI as int).raw()) as usize)
            } else {
                None
            }),
    {
        match self.slot_opt(st, FRAME_SAVED_BCI) {
            Some(v) => match SmallInt::try_from(v) {
                Some(s) => Some(s.value() as usize),
                None => None,
            },
            None => None,
        }
    }

    pub fn method_opt(self, st: &ProcessStack, heap: &Heap) -> (r: Option<MethodOop>)
        requires
            st.wf(),
        ensures
            r == (if st@.has_method(heap, self.fp as int) {
                Some(MethodOop(st@.slot(self.fp as int, FRAME_METHOD as int).raw()))
            } else {
                None
            }),
    {
        match self.slot_opt(st, FRAME_METHOD) {
            Some(v) => heap.method_of(v),
            None => None,
        }
    }

    pub fn context(self, st: &ProcessStack) -> (v: Oop)
        requires
            st.wf(),
            st@.has_slot(self.fp as int, FRAME_CONTEXT as int),
        ensures
            v == st@.slot(self.fp as int, FRAME_CONTEXT as int),
    {
        st.get(self.fp + FRAME_CONTEXT)
    }

    pub fn set_context(self, st: &mut ProcessStack, c: Oop)
        requires
            old(st).wf(),
            old(st)@.has_slot(self.fp as int, FRAME_CONTEXT as int),
        ensures
            final(st).wf(),
            final(st)@ == old(st)@.set(self.fp + FRAME_CONTEXT, c),
    {
        st.set(self.fp + FRAME_CONTEXT, c);
    }

    /// The serial number that the frame was pushed with.
    pub fn serial(self, st: &ProcessStack) -> (n: u32)
        requires
            st.wf(),
            st@.has_serial(self.fp as int),
        ensures
            n == serial_of(st@.serial_word(self.fp as int)),
    {
        (self.number(st, FRAME_SERIAL) & FRAME_SERIAL_MASK) as u32
    }

    /// Nil, or what is to run when the frame is left.
    pub fn marker(self, st: &ProcessStack) -> (v: Oop)
        requires
            st.wf(),
            st@.has_slot(self.fp as int, FRAME_MARKER as int),
        ensures
            v == st@.slot(self.fp as int, FRAME_MARKER as int),
    {
        st.get(self.fp + FRAME_MARKER)
    }

    pub fn marker_kind(self, st: &ProcessStack) -> (k: MarkerKind)
        requires
            st.wf(),
            st@.has_serial(self.fp as int),
        ensures
            k == kind_of(st@.serial_word(self.fp as int)),
    {
        if self.number(st, FRAME_SERIAL) & FRAME_MARKER_KIND_MASK != 0 {
            MarkerKind::IfCurtailed
        } else {
            MarkerKind::Ensure
        }
    }

    /// Arms a marker.
    pub fn set_marker(self, st: &mut ProcessStack, m: Oop, kind: MarkerKind)
        requires
            old(st).wf(),
            old(st)@.has_serial(self.fp as int),
            old(st)@.has_slot(self.fp as int, FRAME_MARKER as int),
        ensures
            final(st).wf(),
            final(st)@ == old(st)@.set(
                self.fp + FRAME_SERIAL,
                Oop(smi_word(with_kind(old(st)@.serial_word(self.fp as int), kind))),
            ).set(self.fp + FRAME_MARKER, m),
    {
        let word: i64 = self.number(st, FRAME_SERIAL);
        let bits: i64 = word & FRAME_SERIAL_MASK;
        let kind_bit: i64 = match kind {
            MarkerKind::Ensure => 0,
            MarkerKind::IfCurtailed => FRAME_MARKER_KIND_MASK,
        };
        proof {
            lemma_kind_bits(word);
        }
        st.set(self.fp + FRAME_SERIAL, SmallInt::new(bits | kind_bit).oop());
        st.set(self.fp + FRAME_MARKER, m);
    }

    pub fn clear_marker(self, st: &mut ProcessStack, nil: Oop)
        requires
            old(st).wf(),
            old(st)@.has_slot(self.fp as int, FRAME_MARKER as int),
        ensures
            final(st).wf(),
            final(st)@ == old(st)@.set(self.fp + FRAME_MARKER, nil),
    {
        st.set(self.fp + FRAME_MARKER, nil);
    }

    /// The frame's own receiver.
    pub fn receiver(self, st: &ProcessStack) -> (v: Oop)
        requires
            st.wf(),
            st@.has_slot(self.fp as int, FRAME_RECEIVER as int),
        ensures
            v == st@.slot(self.fp as int, FRAME_RECEIVER as int),
    {
        st.get(self.fp + FRAME_RECEIVER)
    }

    /// The place of an argument or temporary.
    pub fn temp_index(self, st: &ProcessStack, heap: &Heap, t: usize) -> (i: usize)
        requires
            st.wf(),
            st@.has_temp(heap, self.fp as int, t as int),
        ensures
            i == st@.temp_place(heap, self.fp as int, t as int),
    {
        let m: MethodOop = self.method(st, heap);
        let argc: usize = heap.method(m).argc;
        if t < argc {
            self.fp - (argc - t)
        } else {
            self.fp + FRAME_TEMPS_BASE + (t - argc)
        }
    }

    pub fn temp(self, st: &ProcessStack, heap: &Heap, t: usize) -> (v: Oop)
        requires
            st.wf(),
            st@.has_temp(heap, self.fp as int, t as int),
        ensures
            v == st@.slots[st@.temp_place(heap, self.fp as int, t as int)],
    {
        st.get(self.temp_index(st, heap, t))
    }

    pub fn set_temp(self, st: &mut ProcessStack, heap: &Heap, t: usize, v: Oop)
        requires
            old(st).wf(),
            old(st)@.has_temp(heap, self.fp as int, t as int),
        ensures
            final(st).wf(),
            final(st)@ == old(st)@.set(old(st)@.temp_place(heap, self.fp as int, t as int), v),
    {
        let i: usize = self.temp_index(st, heap, t);
        st.set(i, v);
    }

    /// The place of the word that the message was sent to.
    pub fn receiver_slot(self, st: &ProcessStack, heap: &Heap) -> (i: usize)
        requires
            st.wf(),
            st@.has_method(heap, self.fp as int),
            st@.receiver_place(heap, self.fp as int) >= 0,
        ensures
            i == st@.receiver_place(heap, self.fp as int),
    {
        let m: MethodOop = self.method(st, heap);
        self.fp - heap.method(m).argc - 1
    }

    /// Whether the frame is as an activation leaves it.
    pub fn verify(self, st: &ProcessStack, heap: &Heap) -> (r: Result<(), FrameFault>)
        requires
            st.wf(),
        ensures
            match r {
                Ok(_) => st@.fault(heap, self.fp as int) is None,
                Err(f) => st@.fault(heap, self.fp as int) == Some(f),
            },
    {
        if st.sp < FRAME_TEMPS_BASE || self.fp > st.sp - FRAME_TEMPS_BASE {
            return Err(FrameFault::Truncated);
        }
        let m: MethodOop = match heap.method_of(st.get(self.fp + FRAME_METHOD)) {
            Some(m) => m,
            None => {
                return Err(FrameFault::NotAMethod);
            },
        };
        if !st.get(self.fp + FRAME_SAVED_FP).is_smi() {
            return Err(FrameFault::SavedFp);
        }
        if !st.get(self.fp + FRAME_SAVED_BCI).is_smi() {
            return Err(FrameFault::SavedBci);
        }
        if !st.get(self.fp + FRAME_SERIAL).is_smi() {
            return Err(FrameFault::Serial);
        }
        let method = heap.method(m);
        if self.fp <= method.argc {
            return Err(FrameFault::NoRoomForArgs);
        }
        let below: Oop = st.get(self.fp - method.argc - 1);
        if method.is_block {
            let shaped: bool = match heap.closure_of(below) {
                Some(c) => heap.ncopied(c) > 0 && self.receiver(st) == heap.copied(c, 0),
                None => false,
            };
            if !shaped {
                return Err(FrameFault::BlockShape);
            }
        } else if self.receiver(st) != below {
            return Err(FrameFault::Receiver);
        }
        if method.ntemps > st.sp - (self.fp + FRAME_TEMPS_BASE) {
            return Err(FrameFault::Temps);
        }
        Ok(())
    }
}

// ── Laws ────────────────────────────────────────────────────────────────

proof fn lemma_kind_bits(word: i64)
    ensures
        serial_of(with_kind(word, MarkerKind::Ensure)) == serial_of(word),
        serial_of(with_kind(word, MarkerKind::IfCurtailed)) == serial_of(word),
        kind_of(with_kind(word, MarkerKind::Ensure)) == MarkerKind::Ensure,
        kind_of(with_kind(word, MarkerKind::IfCurtailed)) == MarkerKind::IfCurtailed,
        is_small(with_kind(word, MarkerKind::Ensure)),
        is_small(with_kind(word, MarkerKind::IfCurtailed)),
{
    assert(((word & 0xFFFF_FFFFi64) | 0i64) & 0xFFFF_FFFFi64 == word & 0xFFFF_FFFFi64 && ((word & 0xFFFF_FFFFi64) | 0i64)
        & 0x1_0000_0000i64 == 0i64 && 0i64 <= ((word & 0xFFFF_FFFFi64) | 0i64) && ((word & 0xFFFF_FFFFi64) | 0i64)
        <= 0xFFFF_FFFFi64) by (bit_vector);
    assert(((word & 0xFFFF_FFFFi64) | 0x1_0000_0000i64) & 0xFFFF_FFFFi64 == word & 0xFFFF_FFFFi64 && ((word
        & 0xFFFF_FFFFi64) | 0x1_0000_0000i64) & 0x1_0000_0000i64 != 0i64 && 0i64 <= ((word & 0xFFFF_FFFFi64)
        | 0x1_0000_0000i64) && ((word & 0xFFFF_FFFFi64) | 0x1_0000_0000i64) <= 0x1_FFFF_FFFFi64) by (bit_vector);
}

/// Popping gives back what was pushed, and the stack as it was below.
pub proof fn law_pop_undoes_push(s: StackV, v: Oop)
    requires
        0 <= s.sp < s.slots.len(),
    ensures
        s.push(v).top() == v,
        s.push(v).drop_top() == s.set(s.sp, v),
        s.push(v).drop_top().slots.subrange(0, s.sp) == s.slots.subrange(0, s.sp),
{
    assert(s.push(v).drop_top() =~= s.set(s.sp, v));
    assert(s.push(v).drop_top().slots.subrange(0, s.sp) =~= s.slots.subrange(0, s.sp));
}

/// Arming a marker keeps the frame's serial number, and the marker and its kind read back. So do the
/// serial number and the other slots when the marker is cleared.
pub proof fn law_marker_keeps_serial(s: StackV, fp: int, m: Oop, kind: MarkerKind, nil: Oop)
    requires
        s.has_serial(fp),
        s.has_slot(fp, FRAME_MARKER as int),
    ensures
        ({
            let armed = s.set(fp + FRAME_SERIAL, Oop(smi_word(with_kind(s.serial_word(fp), kind)))).set(
                fp + FRAME_MARKER,
                m,
            );
            let cleared = armed.set(fp + FRAME_MARKER, nil);
            &&& armed.has_serial(fp)
            &&& serial_of(armed.serial_word(fp)) == serial_of(s.serial_word(fp))
            &&& kind_of(armed.serial_word(fp)) == kind
            &&& armed.slot(fp, FRAME_MARKER as int) == m
            &&& cleared.has_serial(fp)
            &&& serial_of(cleared.serial_word(fp)) == serial_of(s.serial_word(fp))
            &&& cleared.slot(fp, FRAME_MARKER as int) == nil
        }),
{
    lemma_kind_bits(s.serial_word(fp));
    law_small_integers_read_back(with_kind(s.serial_word(fp), kind));
}

/// Arguments and temporaries have places of their own, none of them a fixed slot of the frame or the
/// word that the message was sent to.
pub proof fn law_temps_have_their_places(s: StackV, heap: &Heap, fp: int, t: int, u: int)
    requires
        s.has_temp(heap, fp, t),
        s.has_temp(heap, fp, u),
        t != u,
    ensures
        s.temp_place(heap, fp, t) != s.temp_place(heap, fp, u),
        s.temp_place(heap, fp, t) < fp || fp + FRAME_TEMPS_BASE <= s.temp_place(heap, fp, t),
        s.temp_place(heap, fp, t) != s.receiver_place(heap, fp),
{
}

} // verus!
