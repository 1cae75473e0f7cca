//! The compiler's intermediate representation, as the code emitter reads it.
use vstd::prelude::*;
use crate::compiler::assembler::RelocKind;
use crate::oops::SymbolOop;

verus! {

/// A virtual register.
#[derive(Clone, Copy, Debug, PartialEq, Eq, Structural)]
pub struct VReg(pub u32);

/// A basic block, by its index in the method.
#[derive(Clone, Copy, Debug, PartialEq, Eq, Structural)]
pub struct BlockId(pub u32);

/// A constant, by its index in the method's pool.
#[derive(Clone, Copy, Debug, PartialEq, Eq, Structural)]
pub struct PoolLit(pub u32);

/// A fixed runtime routine.
#[derive(Clone, Copy, Debug, PartialEq, Eq, Structural)]
pub enum StubId {
    MustBeBoolean,
    AllocSlow,
    NlrUnwind,
}

/// A comparison.
#[derive(Clone, Copy, Debug, PartialEq, Eq, Structural)]
pub enum CmpOp {
    Lt,
    Le,
    Gt,
    Ge,
    Eq,
    Ne,
}

/// Arithmetic on tagged small integers.
#[derive(Clone, Copy, Debug, PartialEq, Eq, Structural)]
pub enum SmiOp {
    Add,
    Sub,
    Mul,
    Div,
    Mod,
    And,
    Or,
    Xor,
}

/// Floating-point and vector arithmetic.
#[derive(Clone, Copy, Debug, PartialEq, Eq, Structural)]
pub enum FArithOp {
    Add,
    Sub,
    Mul,
    Div,
}

/// The vector classes.
#[derive(Clone, Copy, Debug, PartialEq, Eq, Structural)]
pub enum VecKind {
    F64x2,
    F32x4,
    I32x4,
}

/// How a class guard tests its operand.
#[derive(Clone, Copy, Debug, PartialEq, Eq, Structural)]
pub enum GuardShape {
    SmiTest,
    KlassTest,
    ValueTest,
}

/// Why compiled code gave up.
#[derive(Clone, Copy, Debug, PartialEq, Eq, Structural)]
pub enum BailoutReason {
    SmiOpFailed,
}

/// One instruction.
#[derive(Clone, Debug)]
pub enum Ir {
    FUnbox { dst: VReg, src: VReg, fail: BlockId },
    FBox { dst: VReg, src: VReg },
    FArith { op: FArithOp, dst: VReg, a: VReg, b: VReg },
    VecArith { kind: VecKind, op: FArithOp, dst: VReg, a: VReg, b: VReg, fail: BlockId },
    FCmpVal { op: CmpOp, dst: VReg, a: VReg, b: VReg },
    FCmpBr { op: CmpOp, a: VReg, b: VReg, if_true: BlockId, if_false: BlockId },
    FConst { dst: VReg, bits: u64 },
    ConstSmi { dst: VReg, value: i64 },
    ConstPool { dst: VReg, lit: PoolLit },
    Move { dst: VReg, src: VReg },
    Param { dst: VReg, index: u8 },
    GuardKlass { obj: VReg, expect: PoolLit, fail: BlockId, kind: GuardShape },
    GuardKlassIn { obj: VReg, expects: Vec<PoolLit>, fail: BlockId },
    LoadField { dst: VReg, obj: VReg, byte_off: i32 },
    StoreField { obj: VReg, byte_off: i32, val: VReg, barrier: bool },
    SmiArith { op: SmiOp, dst: VReg, a: VReg, b: VReg, fail: BlockId },
    SmiArithNoOv { op: SmiOp, dst: VReg, a: VReg, b: VReg },
    SmiArithNoOvImm { op: SmiOp, dst: VReg, a: VReg, imm: i64 },
    ArrayAt { dst: VReg, arr: VReg, idx: VReg, klass: PoolLit, fail: BlockId },
    ArrayAtPut { dst: VReg, arr: VReg, idx: VReg, val: VReg, klass: PoolLit, fail: BlockId },
    ArrayAtNC { dst: VReg, arr: VReg, idx: VReg },
    ArrayAtPutNC { dst: VReg, arr: VReg, idx: VReg, val: VReg },
    ByteAt { dst: VReg, obj: VReg, idx: VReg, klass: PoolLit, len_off: i32, tail_off: i32, fail: BlockId },
    ByteAtPut {
        dst: VReg,
        obj: VReg,
        idx: VReg,
        val: VReg,
        klass: PoolLit,
        len_off: i32,
        tail_off: i32,
        fail: BlockId,
    },
    SmiShift { dst: VReg, a: VReg, count: VReg, fail: BlockId },
    SmiCmpBr { op: CmpOp, a: VReg, b: VReg, if_true: BlockId, if_false: BlockId, fail: BlockId },
    SmiCmpVal { op: CmpOp, dst: VReg, a: VReg, b: VReg, fail: BlockId },
    RefCmpVal { dst: VReg, a: VReg, b: VReg, neq: bool },
    RefCmpBr { a: VReg, b: VReg, neq: bool, if_true: BlockId, if_false: BlockId },
    BoolNot { dst: VReg, src: VReg, fail: BlockId },
    Jump { target: BlockId },
    BoolBr { val: VReg, if_true: BlockId, if_false: BlockId, not_bool: BlockId },
    CallSend { dst: VReg, site: u16, args: Vec<VReg> },
    CallRuntime { dst: Option<VReg>, stub: StubId, args: Vec<VReg> },
    Alloc { dst: VReg, klass: PoolLit, size_words: u32 },
    Poll,
    UncommonTrap,
    Ret { val: VReg },
    RetSelf,
    NlrReturn { closure: VReg, value: VReg },
    Bailout { reason: BailoutReason },
}

/// The register an instruction defines.
pub open spec fn op_def(op: Ir) -> Option<VReg> {
    match op {
        Ir::FUnbox { dst, .. } => Some(dst),
        Ir::FBox { dst, .. } => Some(dst),
        Ir::FArith { dst, .. } => Some(dst),
        Ir::VecArith { dst, .. } => Some(dst),
        Ir::FCmpVal { dst, .. } => Some(dst),
        Ir::FConst { dst, .. } => Some(dst),
        Ir::ConstSmi { dst, .. } => Some(dst),
        Ir::ConstPool { dst, .. } => Some(dst),
        Ir::Move { dst, .. } => Some(dst),
        Ir::Param { dst, .. } => Some(dst),
        Ir::LoadField { dst, .. } => Some(dst),
        Ir::SmiArith { dst, .. } => Some(dst),
        Ir::SmiArithNoOv { dst, .. } => Some(dst),
        Ir::SmiArithNoOvImm { dst, .. } => Some(dst),
        Ir::ArrayAt { dst, .. } => Some(dst),
        Ir::ArrayAtPut { dst, .. } => Some(dst),
        Ir::ArrayAtNC { dst, .. } => Some(dst),
        Ir::ArrayAtPutNC { dst, .. } => Some(dst),
        Ir::ByteAt { dst, .. } => Some(dst),
        Ir::ByteAtPut { dst, .. } => Some(dst),
        Ir::SmiShift { dst, .. } => Some(dst),
        Ir::SmiCmpVal { dst, .. } => Some(dst),
        Ir::RefCmpVal { dst, .. } => Some(dst),
        Ir::BoolNot { dst, .. } => Some(dst),
        Ir::CallSend { dst, .. } => Some(dst),
        Ir::CallRuntime { dst, .. } => dst,
        Ir::Alloc { dst, .. } => Some(dst),
        _ => None,
    }
}

/// The registers an instruction reads, in order.
pub open spec fn op_uses(op: Ir) -> Seq<VReg> {
    match op {
        Ir::FUnbox { src, .. } => seq![src],
        Ir::FBox { src, .. } => seq![src],
        Ir::FArith { a, b, .. } => seq![a, b],
        Ir::VecArith { a, b, .. } => seq![a, b],
        Ir::FCmpVal { a, b, .. } => seq![a, b],
        Ir::FCmpBr { a, b, .. } => seq![a, b],
        Ir::Move { src, .. } => seq![src],
        Ir::GuardKlass { obj, .. } => seq![obj],
        Ir::GuardKlassIn { obj, .. } => seq![obj],
        Ir::LoadField { obj, .. } => seq![obj],
        Ir::StoreField { obj, val, .. } => seq![obj, val],
        Ir::SmiArith { a, b, .. } => seq![a, b],
        Ir::SmiArithNoOv { a, b, .. } => seq![a, b],
        Ir::SmiArithNoOvImm { a, .. } => seq![a],
        Ir::ArrayAt { arr, idx, .. } => seq![arr, idx],
        Ir::ArrayAtPut { arr, idx, val, .. } => seq![arr, idx, val],
        Ir::ArrayAtNC { arr, idx, .. } => seq![arr, idx],
        Ir::ArrayAtPutNC { arr, idx, val, .. } => seq![arr, idx, val],
        Ir::ByteAt { obj, idx, .. } => seq![obj, idx],
        Ir::ByteAtPut { obj, idx, val, .. } => seq![obj, idx, val],
        Ir::SmiShift { a, count, .. } => seq![a, count],
        Ir::SmiCmpBr { a, b, .. } => seq![a, b],
        Ir::SmiCmpVal { a, b, .. } => seq![a, b],
        Ir::RefCmpVal { a, b, .. } => seq![a, b],
        Ir::RefCmpBr { a, b, .. } => seq![a, b],
        Ir::BoolNot { src, .. } => seq![src],
        Ir::BoolBr { val, .. } => seq![val],
        Ir::CallSend { args, .. } => args@,
        Ir::CallRuntime { args, .. } => args@,
        Ir::Ret { val } => seq![val],
        Ir::RetSelf => seq![VReg(0)],
        Ir::NlrReturn { closure, value } => seq![closure, value],
        _ => Seq::empty(),
    }
}

/// Whether an instruction may call into the runtime, which may move objects.
pub open spec fn safepoint_op(op: Ir) -> bool {
    match op {
        Ir::FBox { .. } => true,
        Ir::VecArith { .. } => true,
        Ir::CallSend { .. } => true,
        Ir::CallRuntime { .. } => true,
        Ir::Alloc { .. } => true,
        Ir::Poll => true,
        Ir::UncommonTrap => true,
        Ir::NlrReturn { .. } => true,
        _ => false,
    }
}

/// The blocks an instruction may continue at, its failure edge among them.
pub open spec fn op_targets(op: Ir) -> Seq<BlockId> {
    match op {
        Ir::FUnbox { fail, .. } => seq![fail],
        Ir::VecArith { fail, .. } => seq![fail],
        Ir::FCmpBr { if_true, if_false, .. } => seq![if_true, if_false],
        Ir::GuardKlass { fail, .. } => seq![fail],
        Ir::GuardKlassIn { fail, .. } => seq![fail],
        Ir::SmiArith { fail, .. } => seq![fail],
        Ir::ArrayAt { fail, .. } => seq![fail],
        Ir::ArrayAtPut { fail, .. } => seq![fail],
        Ir::ByteAt { fail, .. } => seq![fail],
        Ir::ByteAtPut { fail, .. } => seq![fail],
        Ir::SmiShift { fail, .. } => seq![fail],
        Ir::SmiCmpBr { if_true, if_false, fail, .. } => seq![if_true, if_false, fail],
        Ir::SmiCmpVal { fail, .. } => seq![fail],
        Ir::RefCmpBr { if_true, if_false, .. } => seq![if_true, if_false],
        Ir::BoolNot { fail, .. } => seq![fail],
        Ir::Jump { target } => seq![target],
        Ir::BoolBr { if_true, if_false, not_bool, .. } => seq![if_true, if_false, not_bool],
        _ => Seq::empty(),
    }
}

/// The successors of a block: the targets of its instructions, in order.
pub open spec fn code_targets(code: Seq<Ir>) -> Seq<BlockId>
    decreases code.len(),
{
    if code.len() == 0 {
        Seq::empty()
    } else {
        code_targets(code.drop_last()) + op_targets(code.last())
    }
}

/// The register an instruction defines.
pub fn def_of(op: &Ir) -> (r: Option<VReg>)
    ensures
        r == op_def(*op),
{
    match op {
        Ir::FUnbox { dst, .. } => Some(*dst),
        Ir::FBox { dst, .. } => Some(*dst),
        Ir::FArith { dst, .. } => Some(*dst),
        Ir::VecArith { dst, .. } => Some(*dst),
        Ir::FCmpVal { dst, .. } => Some(*dst),
        Ir::FConst { dst, .. } => Some(*dst),
        Ir::ConstSmi { dst, .. } => Some(*dst),
        Ir::ConstPool { dst, .. } => Some(*dst),
        Ir::Move { dst, .. } => Some(*dst),
        Ir::Param { dst, .. } => Some(*dst),
        Ir::LoadField { dst, .. } => Some(*dst),
        Ir::SmiArith { dst, .. } => Some(*dst),
        Ir::SmiArithNoOv { dst, .. } => Some(*dst),
        Ir::SmiArithNoOvImm { dst, .. } => Some(*dst),
        Ir::ArrayAt { dst, .. } => Some(*dst),
        Ir::ArrayAtPut { dst, .. } => Some(*dst),
        Ir::ArrayAtNC { dst, .. } => Some(*dst),
        Ir::ArrayAtPutNC { dst, .. } => Some(*dst),
        Ir::ByteAt { dst, .. } => Some(*dst),
        Ir::ByteAtPut { dst, .. } => Some(*dst),
        Ir::SmiShift { dst, .. } => Some(*dst),
        Ir::SmiCmpVal { dst, .. } => Some(*dst),
        Ir::RefCmpVal { dst, .. } => Some(*dst),
        Ir::BoolNot { dst, .. } => Some(*dst),
        Ir::CallSend { dst, .. } => Some(*dst),
        Ir::CallRuntime { dst, .. } => *dst,
        Ir::Alloc { dst, .. } => Some(*dst),
        _ => None,
    }
}

fn one<T: Copy>(a: T) -> (r: Vec<T>)
    ensures
        r@ == seq![a],
{
    let mut r: Vec<T> = Vec::new();
    r.push(a);
    assert(r@ =~= seq![a]);
    r
}

fn two<T: Copy>(a: T, b: T) -> (r: Vec<T>)
    ensures
        r@ == seq![a, b],
{
    let mut r: Vec<T> = one(a);
    r.push(b);
    assert(r@ =~= seq![a, b]);
    r
}

fn three<T: Copy>(a: T, b: T, c: T) -> (r: Vec<T>)
    ensures
        r@ == seq![a, b, c],
{
    let mut r: Vec<T> = two(a, b);
    r.push(c);
    assert(r@ =~= seq![a, b, c]);
    r
}

/// The registers an instruction reads, in order.
pub fn uses_of(op: &Ir) -> (r: Vec<VReg>)
    ensures
        r@ == op_uses(*op),
{
    match op {
        Ir::FUnbox { src, .. } => one(*src),
        Ir::FBox { src, .. } => one(*src),
        Ir::FArith { a, b, .. } => two(*a, *b),
        Ir::VecArith { a, b, .. } => two(*a, *b),
        Ir::FCmpVal { a, b, .. } => two(*a, *b),
        Ir::FCmpBr { a, b, .. } => two(*a, *b),
        Ir::Move { src, .. } => one(*src),
        Ir::GuardKlass { obj, .. } => one(*obj),
        Ir::GuardKlassIn { obj, .. } => one(*obj),
        Ir::LoadField { obj, .. } => one(*obj),
        Ir::StoreField { obj, val, .. } => two(*obj, *val),
        Ir::SmiArith { a, b, .. } => two(*a, *b),
        Ir::SmiArithNoOv { a, b, .. } => two(*a, *b),
        Ir::SmiArithNoOvImm { a, .. } => one(*a),
        Ir::ArrayAt { arr, idx, .. } => two(*arr, *idx),
        Ir::ArrayAtPut { arr, idx, val, .. } => three(*arr, *idx, *val),
        Ir::ArrayAtNC { arr, idx, .. } => two(*arr, *idx),
        Ir::ArrayAtPutNC { arr, idx, val, .. } => three(*arr, *idx, *val),
        Ir::ByteAt { obj, idx, .. } => two(*obj, *idx),
        Ir::ByteAtPut { obj, idx, val, .. } => three(*obj, *idx, *val),
        Ir::SmiShift { a, count, .. } => two(*a, *count),
        Ir::SmiCmpBr { a, b, .. } => two(*a, *b),
        Ir::SmiCmpVal { a, b, .. } => two(*a, *b),
        Ir::RefCmpVal { a, b, .. } => two(*a, *b),
        Ir::RefCmpBr { a, b, .. } => two(*a, *b),
        Ir::BoolNot { src, .. } => one(*src),
        Ir::BoolBr { val, .. } => one(*val),
        Ir::CallSend { args, .. } => args.clone(),
        Ir::CallRuntime { args, .. } => args.clone(),
        Ir::Ret { val } => one(*val),
        Ir::RetSelf => one(VReg(0)),
        Ir::NlrReturn { closure, value } => two(*closure, *value),
        _ => Vec::new(),
    }
}

/// Whether an instruction may call into the runtime, which may move objects.
pub fn is_safepoint_op(op: &Ir) -> (r: bool)
    ensures
        r == safepoint_op(*op),
{
    match op {
        Ir::FBox { .. } => true,
        Ir::VecArith { .. } => true,
        Ir::CallSend { .. } => true,
        Ir::CallRuntime { .. } => true,
        Ir::Alloc { .. } => true,
        Ir::Poll => true,
        Ir::UncommonTrap => true,
        Ir::NlrReturn { .. } => true,
        _ => false,
    }
}

fn targets_of(op: &Ir) -> (r: Vec<BlockId>)
    ensures
        r@ == op_targets(*op),
{
    match op {
        Ir::FUnbox { fail, .. } => one(*fail),
        Ir::VecArith { fail, .. } => one(*fail),
        Ir::FCmpBr { if_true, if_false, .. } => two(*if_true, *if_false),
        Ir::GuardKlass { fail, .. } => one(*fail),
        Ir::GuardKlassIn { fail, .. } => one(*fail),
        Ir::SmiArith { fail, .. } => one(*fail),
        Ir::ArrayAt { fail, .. } => one(*fail),
        Ir::ArrayAtPut { fail, .. } => one(*fail),
        Ir::ByteAt { fail, .. } => one(*fail),
        Ir::ByteAtPut { fail, .. } => one(*fail),
        Ir::SmiShift { fail, .. } => one(*fail),
        Ir::SmiCmpBr { if_true, if_false, fail, .. } => three(*if_true, *if_false, *fail),
        Ir::SmiCmpVal { fail, .. } => one(*fail),
        Ir::RefCmpBr { if_true, if_false, .. } => two(*if_true, *if_false),
        Ir::BoolNot { fail, .. } => one(*fail),
        Ir::Jump { target } => one(*target),
        Ir::BoolBr { if_true, if_false, not_bool, .. } => three(*if_true, *if_false, *not_bool),
        _ => Vec::new(),
    }
}

/// A constant of the method's pool.
#[derive(Clone, Copy, Debug, PartialEq, Eq, Structural)]
pub struct PoolEntry {
    pub value: u64,
    pub kind: Option<RelocKind>,
}

/// What a send site sends.
#[derive(Clone, Copy, Debug, PartialEq, Eq, Structural)]
pub struct CallSiteInfo {
    pub selector: SymbolOop,
    pub argc: u8,
}

/// What kind of value a virtual register holds.
#[derive(Clone, Copy, Debug, PartialEq, Eq, Structural)]
pub struct VRegInfo {
    pub is_oop: bool,
    pub is_fp: bool,
}

/// A basic block: straight-line code that ends by leaving it.
#[derive(Clone, Debug)]
pub struct IrBlock {
    pub id: BlockId,
    pub bci: usize,
    pub code: Vec<Ir>,
}

/// The successors of a block.
pub fn successors(b: &IrBlock) -> (r: Vec<BlockId>)
    ensures
        r@ == code_targets(b.code@),
{
    let mut r: Vec<BlockId> = Vec::new();
    let mut i: usize = 0;
    while i < b.code.len()
        invariant
            i <= b.code@.len(),
            r@ == code_targets(b.code@.take(i as int)),
        decreases b.code@.len() - i,
    {
        let mut t: Vec<BlockId> = targets_of(&b.code[i]);
        r.append(&mut t);
        assert(b.code@.take(i as int + 1).drop_last() =~= b.code@.take(i as int));
        i += 1;
    }
    assert(b.code@.take(i as int) =~= b.code@);
    r
}

/// A method in intermediate form.
#[derive(Clone, Debug)]
pub struct IrMethod {
    pub blocks: Vec<IrBlock>,
    pub vregs: Vec<VRegInfo>,
    pub pool: Vec<PoolEntry>,
    pub true_lit: PoolLit,
    pub false_lit: PoolLit,
    pub nil_lit: PoolLit,
    pub mark_slots_lit: PoolLit,
    pub mark_double_lit: PoolLit,
    pub double_klass_lit: PoolLit,
    pub float64x2_klass_lit: PoolLit,
    pub float32x4_klass_lit: PoolLit,
    pub int32x4_klass_lit: PoolLit,
    pub call_sites: Vec<CallSiteInfo>,
}

/// What an instruction names: the register it defines, the registers it reads, and the blocks it may go
/// on at. Each of its operands is among them, and nothing else is.
pub proof fn law_instructions_name_their_parts(op: Ir)
    ensures
        match op {
            Ir::FUnbox { dst, src, fail } => op_def(op) == Some(dst) && op_uses(op).len() == 1 && op_uses(op).contains(src) && op_targets(op).len() == 1 && op_targets(op).contains(fail),
            Ir::FBox { dst, src } => op_def(op) == Some(dst) && op_uses(op).len() == 1 && op_uses(op).contains(src) && op_targets(op).len() == 0,
            Ir::FArith { dst, a, b, .. } => op_def(op) == Some(dst) && op_uses(op).len() == 2 && op_uses(op).contains(a) && op_uses(op).contains(b) && op_targets(op).len() == 0,
            Ir::VecArith { dst, a, b, fail, .. } => op_def(op) == Some(dst) && op_uses(op).len() == 2 && op_uses(op).contains(a) && op_uses(op).contains(b) && op_targets(op).len() == 1 && op_targets(op).contains(fail),
            Ir::FCmpVal { dst, a, b, .. } => op_def(op) == Some(dst) && op_uses(op).len() == 2 && op_uses(op).contains(a) && op_uses(op).contains(b) && op_targets(op).len() == 0,
            Ir::FCmpBr { a, b, if_true, if_false, .. } => op_def(op) is None && op_uses(op).len() == 2 && op_uses(op).contains(a) && op_uses(op).contains(b) && op_targets(op).len() == 2 && op_targets(op).contains(if_true) && op_targets(op).contains(if_false),
            Ir::FConst { dst, .. } => op_def(op) == Some(dst) && op_uses(op).len() == 0 && op_targets(op).len() == 0,
            Ir::ConstSmi { dst, .. } => op_def(op) == Some(dst) && op_uses(op).len() == 0 && op_targets(op).len() == 0,
            Ir::ConstPool { dst, .. } => op_def(op) == Some(dst) && op_uses(op).len() == 0 && op_targets(op).len() == 0,
            Ir::Move { dst, src } => op_def(op) == Some(dst) && op_uses(op).len() == 1 && op_uses(op).contains(src) && op_targets(op).len() == 0,
            Ir::Param { dst, .. } => op_def(op) == Some(dst) && op_uses(op).len() == 0 && op_targets(op).len() == 0,
            Ir::GuardKlass { obj, fail, .. } => op_def(op) is None && op_uses(op).len() == 1 && op_uses(op).contains(obj) && op_targets(op).len() == 1 && op_targets(op).contains(fail),
            Ir::GuardKlassIn { obj, fail, .. } => op_def(op) is None && op_uses(op).len() == 1 && op_uses(op).contains(obj) && op_targets(op).len() == 1 && op_targets(op).contains(fail),
            Ir::LoadField { dst, obj, .. } => op_def(op) == Some(dst) && op_uses(op).len() == 1 && op_uses(op).contains(obj) && op_targets(op).len() == 0,
            Ir::StoreField { obj, val, .. } => op_def(op) is None && op_uses(op).len() == 2 && op_uses(op).contains(obj) && op_uses(op).contains(val) && op_targets(op).len() == 0,
            Ir::SmiArith { dst, a, b, fail, .. } => op_def(op) == Some(dst) && op_uses(op).len() == 2 && op_uses(op).contains(a) && op_uses(op).contains(b) && op_targets(op).len() == 1 && op_targets(op).contains(fail),
            Ir::SmiArithNoOv { dst, a, b, .. } => op_def(op) == Some(dst) && op_uses(op).len() == 2 && op_uses(op).contains(a) && op_uses(op).contains(b) && op_targets(op).len() == 0,
            Ir::SmiArithNoOvImm { dst, a, .. } => op_def(op) == Some(dst) && op_uses(op).len() == 1 && op_uses(op).contains(a) && op_targets(op).len() == 0,
            Ir::ArrayAt { dst, arr, idx, fail, .. } => op_def(op) == Some(dst) && op_uses(op).len() == 2 && op_uses(op).contains(arr) && op_uses(op).contains(idx) && op_targets(op).len() == 1 && op_targets(op).contains(fail),
            Ir::ArrayAtPut { dst, arr, idx, val, fail, .. } => op_def(op) == Some(dst) && op_uses(op).len() == 3 && op_uses(op).contains(arr) && op_uses(op).contains(idx) && op_uses(op).contains(val) && op_targets(op).len() == 1 && op_targets(op).contains(fail),
            Ir::ArrayAtNC { dst, arr, idx } => op_def(op) == Some(dst) && op_uses(op).len() == 2 && op_uses(op).contains(arr) && op_uses(op).contains(idx) && op_targets(op).len() == 0,
            Ir::ArrayAtPutNC { dst, arr, idx, val } => op_def(op) == Some(dst) && op_uses(op).len() == 3 && op_uses(op).contains(arr) && op_uses(op).contains(idx) && op_uses(op).contains(val) && op_targets(op).len() == 0,
            Ir::ByteAt { dst, obj, idx, fail, .. } => op_def(op) == Some(dst) && op_uses(op).len() == 2 && op_uses(op).contains(obj) && op_uses(op).contains(idx) && op_targets(op).len() == 1 && op_targets(op).contains(fail),
            Ir::ByteAtPut { dst, obj, idx, val, fail, .. } => op_def(op) == Some(dst) && op_uses(op).len() == 3 && op_uses(op).contains(obj) && op_uses(op).contains(idx) && op_uses(op).contains(val) && op_targets(op).len() == 1 && op_targets(op).contains(fail),
            Ir::SmiShift { dst, a, count, fail } => op_def(op) == Some(dst) && op_uses(op).len() == 2 && op_uses(op).contains(a) && op_uses(op).contains(count) && op_targets(op).len() == 1 && op_targets(op).contains(fail),
            Ir::SmiCmpBr { a, b, if_true, if_false, fail, .. } => op_def(op) is None && op_uses(op).len() == 2 && op_uses(op).contains(a) && op_uses(op).contains(b) && op_targets(op).len() == 3 && op_targets(op).contains(if_true) && op_targets(op).contains(if_false) && op_targets(op).contains(fail),
            Ir::SmiCmpVal { dst, a, b, fail, .. } => op_def(op) == Some(dst) && op_uses(op).len() == 2 && op_uses(op).contains(a) && op_uses(op).contains(b) && op_targets(op).len() == 1 && op_targets(op).contains(fail),
            Ir::RefCmpVal { dst, a, b, .. } => op_def(op) == Some(dst) && op_uses(op).len() == 2 && op_uses(op).contains(a) && op_uses(op).contains(b) && op_targets(op).len() == 0,
            Ir::RefCmpBr { a, b, if_true, if_false, .. } => op_def(op) is None && op_uses(op).len() == 2 && op_uses(op).contains(a) && op_uses(op).contains(b) && op_targets(op).len() == 2 && op_targets(op).contains(if_true) && op_targets(op).contains(if_false),
            Ir::BoolNot { dst, src, fail } => op_def(op) == Some(dst) && op_uses(op).len() == 1 && op_uses(op).contains(src) && op_targets(op).len() == 1 && op_targets(op).contains(fail),
            Ir::Jump { target } => op_def(op) is None && op_uses(op).len() == 0 && op_targets(op).len() == 1 && op_targets(op).contains(target),
            Ir::BoolBr { val, if_true, if_false, not_bool } => op_def(op) is None && op_uses(op).len() == 1 && op_uses(op).contains(val) && op_targets(op).len() == 3 && op_targets(op).contains(if_true) && op_targets(op).contains(if_false) && op_targets(op).contains(not_bool),
            Ir::CallSend { dst, args, .. } => op_def(op) == Some(dst) && op_uses(op) == args@ && op_targets(op).len() == 0,
            Ir::CallRuntime { dst, args, .. } => op_def(op) == dst && op_uses(op) == args@ && op_targets(op).len() == 0,
            Ir::Alloc { dst, .. } => op_def(op) == Some(dst) && op_uses(op).len() == 0 && op_targets(op).len() == 0,
            Ir::Poll => op_def(op) is None && op_uses(op).len() == 0 && op_targets(op).len() == 0,
            Ir::UncommonTrap => op_def(op) is None && op_uses(op).len() == 0 && op_targets(op).len() == 0,
            Ir::Ret { val } => op_def(op) is None && op_uses(op).len() == 1 && op_uses(op).contains(val) && op_targets(op).len() == 0,
            Ir::RetSelf => op_def(op) is None && op_uses(op).len() == 1 && op_uses(op)[0] == VReg(0) && op_targets(op).len() == 0,
            Ir::NlrReturn { closure, value } => op_def(op) is None && op_uses(op).len() == 2 && op_uses(op).contains(closure) && op_uses(op).contains(value) && op_targets(op).len() == 0,
            Ir::Bailout { .. } => op_def(op) is None && op_uses(op).len() == 0 && op_targets(op).len() == 0,
        },
{
    let u = op_uses(op);
    let t = op_targets(op);
    assert(forall|i: int| 0 <= i < u.len() ==> u.contains(#[trigger] u[i]));
    assert(forall|i: int| 0 <= i < t.len() ==> t.contains(#[trigger] t[i]));
    if u.len() > 0 {
        assert(u.contains(u[0]));
    }
    if u.len() > 1 {
        assert(u.contains(u[1]));
    }
    if u.len() > 2 {
        assert(u.contains(u[2]));
    }
    if t.len() > 0 {
        assert(t.contains(t[0]));
    }
    if t.len() > 1 {
        assert(t.contains(t[1]));
    }
    if t.len() > 2 {
        assert(t.contains(t[2]));
    }
}

} // verus!
