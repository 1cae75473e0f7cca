//! From the syntax tree to instructions.
//!
//! [`Out`] is what a method or block has been compiled to so far. A function of `Out` states the
//! code of each construct; the executable functions build the same.
use vstd::prelude::*;
use crate::bytecode::Instr;
use crate::frontend::ast::{BlockNode, Expr, FfiPragma, Literal, MethodNode, MethodSignature};
use crate::frontend::capture::{analyze, control, inline_block_positions, BlockPos, CaptureInfo, Control, Resolved, ScopeInfo, VarSlot};
#[allow(unused_imports)]
use crate::frontend::capture::{
    analyzed, capture_of, control_of, scope_ok, var_ok, dissolves, lemma_walk_args_grows, lemma_walk_at_grows,
    lemma_walk_grows, lemma_walk_list_grows, method_scope, numbered, numbered_args, numbered_at, numbered_list,
    positions, resolution, same, same_list, send_positions, Names, texts, walk, walk_args, walk_at, walk_list,
    walk_method, Walk,
};
use crate::frontend::lexer::Span;
use crate::frontend::CompileError;
use crate::text::{push_dec, text_eq};
#[allow(unused_imports)]
use crate::text::dec_text;

verus! {

// ── Literals ────────────────────────────────────────────────────────────

/// A literal value: immediate, a symbol, or one of the unit's objects.
#[derive(Clone, Debug)]
pub enum LitRef {
    Smi(i64),
    Nil,
    True,
    False,
    Symbol(String),
    Obj(usize),
}

/// An object that the compiler builds for a literal.
#[derive(Debug)]
pub enum LitObj {
    BigInt { negative: bool, digits: Vec<u8> },
    /// The bits of a double.
    Double(u64),
    Char(char),
    Str(String),
    Array(Vec<LitRef>),
    Bytes(Vec<u8>),
}

/// A literal value, as the contracts see it.
pub enum LitV {
    Smi(i64),
    Nil,
    True,
    False,
    Symbol(Seq<char>),
    Obj(nat),
}

/// A literal object, as the contracts see it.
pub enum ObjV {
    BigInt(bool, Seq<u8>),
    Double(u64),
    Char(char),
    Str(Seq<char>),
    Array(Seq<LitV>),
    Bytes(Seq<u8>),
}

pub open spec fn ref_view(r: LitRef) -> LitV {
    match r {
        LitRef::Smi(v) => LitV::Smi(v),
        LitRef::Nil => LitV::Nil,
        LitRef::True => LitV::True,
        LitRef::False => LitV::False,
        LitRef::Symbol(s) => LitV::Symbol(s@),
        LitRef::Obj(i) => LitV::Obj(i as nat),
    }
}

pub open spec fn refs_view(v: Seq<LitRef>) -> Seq<LitV> {
    Seq::new(v.len(), |i: int| ref_view(v[i]))
}

pub open spec fn obj_view(o: LitObj) -> ObjV {
    match o {
        LitObj::BigInt { negative, digits } => ObjV::BigInt(negative, digits@),
        LitObj::Double(b) => ObjV::Double(b),
        LitObj::Char(c) => ObjV::Char(c),
        LitObj::Str(s) => ObjV::Str(s@),
        LitObj::Array(v) => ObjV::Array(refs_view(v@)),
        LitObj::Bytes(b) => ObjV::Bytes(b@),
    }
}

pub open spec fn objs_view(v: Seq<LitObj>) -> Seq<ObjV> {
    Seq::new(v.len(), |i: int| obj_view(v[i]))
}

/// The index of an object, from `i` on; the length where it is new.
pub open spec fn obj_index(objs: Seq<ObjV>, o: ObjV, i: int) -> int
    decreases objs.len() - i,
{
    if i < 0 || i >= objs.len() {
        objs.len() as int
    } else if objs[i] == o {
        i
    } else {
        obj_index(objs, o, i + 1)
    }
}

/// An object that equal literals share: the one there is, or a new one.
pub open spec fn shared(objs: Seq<ObjV>, o: ObjV) -> (LitV, Seq<ObjV>) {
    let i = obj_index(objs, o, 0);
    if i < objs.len() {
        (LitV::Obj(i as nat), objs)
    } else {
        (LitV::Obj(objs.len()), objs.push(o))
    }
}

/// The value of a literal. Numbers, characters and strings share an object with an equal one of
/// the unit; arrays and byte arrays are always new. An array's object comes before those of its
/// elements.
pub open spec fn literal_value(objs: Seq<ObjV>, lit: Literal) -> (LitV, Seq<ObjV>)
    decreases lit, 0int,
{
    match lit {
        Literal::Int(v) => (LitV::Smi(v), objs),
        Literal::BigInt { negative, digits } => shared(objs, ObjV::BigInt(negative, digits@)),
        Literal::Float(b) => shared(objs, ObjV::Double(b)),
        Literal::Char(c) => shared(objs, ObjV::Char(c)),
        Literal::Str(s) => shared(objs, ObjV::Str(s@)),
        Literal::Symbol(s) => (LitV::Symbol(s@), objs),
        Literal::Array(items) => {
            let at = objs.len() as int;
            let (vals, rest) = literal_values(objs.push(ObjV::Array(Seq::empty())), items@, items@.len() as int);
            (LitV::Obj(at as nat), rest.update(at, ObjV::Array(vals)))
        },
        Literal::ByteArray(b) => (LitV::Obj(objs.len()), objs.push(ObjV::Bytes(b@))),
        Literal::Nil => (LitV::Nil, objs),
        Literal::True => (LitV::True, objs),
        Literal::False => (LitV::False, objs),
    }
}

/// The values of the first `k` literals.
pub open spec fn literal_values(objs: Seq<ObjV>, items: Seq<Literal>, k: int) -> (Seq<LitV>, Seq<ObjV>)
    decreases items, k,
{
    if k <= 0 || k > items.len() {
        (Seq::empty(), objs)
    } else {
        let (vals, o1) = literal_values(objs, items, k - 1);
        let (v, o2) = literal_value(o1, items[k - 1]);
        (vals.push(v), o2)
    }
}

fn same_bytes(a: &Vec<u8>, b: &Vec<u8>) -> (r: bool)
    ensures
        r == (a@ == b@),
{
    if a.len() != b.len() {
        return false;
    }
    let mut i: usize = 0;
    while i < a.len()
        invariant
            i <= a@.len(),
            a@.len() == b@.len(),
            forall|k: int| 0 <= k < i ==> a@[k] == b@[k],
        decreases a@.len() - i,
    {
        if a[i] != b[i] {
            return false;
        }
        i += 1;
    }
    assert(a@ =~= b@);
    true
}

fn copy_bytes(a: &Vec<u8>) -> (r: Vec<u8>)
    ensures
        r@ == a@,
{
    let mut r: Vec<u8> = Vec::new();
    let mut i: usize = 0;
    while i < a.len()
        invariant
            i <= a@.len(),
            r@ == a@.take(i as int),
        decreases a@.len() - i,
    {
        r.push(a[i]);
        assert(a@.take(i + 1) =~= a@.take(i as int).push(a@[i as int]));
        i += 1;
    }
    assert(a@.take(i as int) =~= a@);
    r
}

/// Whether two objects of a kind that is shared are equal.
fn same_obj(a: &LitObj, b: &LitObj) -> (r: bool)
    ensures
        !(*b is Array) && !(*b is Bytes) ==> r == (obj_view(*a) == obj_view(*b)),
{
    match (a, b) {
        (LitObj::BigInt { negative: n, digits: d }, LitObj::BigInt { negative: n2, digits: d2 }) => *n == *n2
            && same_bytes(d, d2),
        (LitObj::Double(x), LitObj::Double(y)) => *x == *y,
        (LitObj::Char(x), LitObj::Char(y)) => *x == *y,
        (LitObj::Str(x), LitObj::Str(y)) => text_eq(x.as_str(), y.as_str()),
        _ => false,
    }
}

fn share(objs: &mut Vec<LitObj>, o: LitObj) -> (r: LitRef)
    requires
        !(o is Array),
        !(o is Bytes),
    ensures
        (ref_view(r), objs_view(final(objs)@)) == shared(objs_view(old(objs)@), obj_view(o)),
        final(objs)@.len() >= old(objs)@.len(),
        forall|i: int| 0 <= i < old(objs)@.len() ==> #[trigger] final(objs)@[i] == old(objs)@[i],
{
    let ghost v = objs_view(objs@);
    let mut i: usize = 0;
    while i < objs.len()
        invariant
            i <= objs@.len(),
            *objs == *old(objs),
            v == objs_view(objs@),
            !(o is Array),
            !(o is Bytes),
            obj_index(v, obj_view(o), 0) == obj_index(v, obj_view(o), i as int),
        decreases objs@.len() - i,
    {
        if same_obj(&objs[i], &o) {
            return LitRef::Obj(i);
        }
        i += 1;
    }
    objs.push(o);
    assert(objs_view(objs@) =~= v.push(obj_view(o)));
    LitRef::Obj(i)
}

/// Builds the value of a literal among the unit's objects.
pub fn build_literal_value(objs: &mut Vec<LitObj>, lit: &Literal) -> (r: LitRef)
    ensures
        (ref_view(r), objs_view(final(objs)@)) == literal_value(objs_view(old(objs)@), *lit),
        final(objs)@.len() >= old(objs)@.len(),
        forall|i: int| 0 <= i < old(objs)@.len() ==> #[trigger] final(objs)@[i] == old(objs)@[i],
    decreases *lit, 0int,
{
    match lit {
        Literal::Int(v) => LitRef::Smi(*v),
        Literal::BigInt { negative, digits } => share(
            objs,
            LitObj::BigInt { negative: *negative, digits: copy_bytes(digits) },
        ),
        Literal::Float(b) => share(objs, LitObj::Double(*b)),
        Literal::Char(c) => share(objs, LitObj::Char(*c)),
        Literal::Str(s) => share(objs, LitObj::Str(s.clone())),
        Literal::Symbol(s) => LitRef::Symbol(s.clone()),
        Literal::Array(items) => {
            let at: usize = objs.len();
            let ghost o0 = objs_view(objs@);
            let empty: Vec<LitRef> = Vec::new();
            objs.push(LitObj::Array(empty));
            assert(refs_view(empty@) =~= Seq::<LitV>::empty());
            assert(objs_view(objs@) =~= o0.push(ObjV::Array(Seq::empty())));
            let vals: Vec<LitRef> = build_all(objs, items);
            let ghost rest = objs_view(objs@);
            let ghost vv = vals@;
            objs.set(at, LitObj::Array(vals));
            assert(objs_view(objs@) =~= rest.update(at as int, ObjV::Array(refs_view(vv))));
            LitRef::Obj(at)
        },
        Literal::ByteArray(b) => {
            let at: usize = objs.len();
            let ghost o0 = objs_view(objs@);
            objs.push(LitObj::Bytes(copy_bytes(b)));
            assert(objs_view(objs@) =~= o0.push(ObjV::Bytes(b@)));
            LitRef::Obj(at)
        },
        Literal::Nil => LitRef::Nil,
        Literal::True => LitRef::True,
        Literal::False => LitRef::False,
    }
}

fn build_all(objs: &mut Vec<LitObj>, items: &Vec<Literal>) -> (vals: Vec<LitRef>)
    ensures
        (refs_view(vals@), objs_view(final(objs)@)) == literal_values(
            objs_view(old(objs)@),
            items@,
            items@.len() as int,
        ),
        final(objs)@.len() >= old(objs)@.len(),
        forall|i: int| 0 <= i < old(objs)@.len() ==> #[trigger] final(objs)@[i] == old(objs)@[i],
    decreases items@, items@.len(),
{
    let mut vals: Vec<LitRef> = Vec::new();
    let mut i: usize = 0;
    assert(refs_view(vals@) =~= Seq::<LitV>::empty());
    while i < items.len()
        invariant
            i <= items@.len(),
            (refs_view(vals@), objs_view(objs@)) == literal_values(objs_view(old(objs)@), items@, i as int),
            objs@.len() >= old(objs)@.len(),
            forall|k: int| 0 <= k < old(objs)@.len() ==> #[trigger] objs@[k] == old(objs)@[k],
        decreases items@.len() - i,
    {
        proof {
            assert(decreases_to!(items@ => items@[i as int]));
        }
        let ghost before = vals@;
        let v: LitRef = build_literal_value(objs, &items[i]);
        vals.push(v);
        assert(refs_view(vals@) =~= refs_view(before).push(ref_view(v)));
        i += 1;
    }
    vals
}

/// Equal literals of a shared kind have one object, which building it again does not change.
pub proof fn law_equal_literals_share(objs: Seq<ObjV>, o: ObjV)
    ensures
        shared(shared(objs, o).1, o) == (shared(objs, o).0, shared(objs, o).1),
{
    let s = shared(objs, o).1;
    lemma_obj_index(objs, o, 0);
    lemma_obj_index(s, o, 0);
    if obj_index(objs, o, 0) >= objs.len() {
        lemma_not_before(objs, o, 0);
        lemma_found_last(objs, o, 0);
    }
}

proof fn lemma_obj_index(objs: Seq<ObjV>, o: ObjV, i: int)
    requires
        0 <= i <= objs.len(),
    ensures
        i <= obj_index(objs, o, i) <= objs.len(),
        obj_index(objs, o, i) < objs.len() ==> objs[obj_index(objs, o, i)] == o,
    decreases objs.len() - i,
{
    if i < objs.len() {
        lemma_obj_index(objs, o, i + 1);
    }
}

proof fn lemma_not_before(objs: Seq<ObjV>, o: ObjV, i: int)
    requires
        0 <= i <= objs.len(),
        obj_index(objs, o, i) == objs.len(),
    ensures
        forall|k: int| i <= k < objs.len() ==> #[trigger] objs[k] != o,
    decreases objs.len() - i,
{
    if i < objs.len() {
        lemma_obj_index(objs, o, i + 1);
        lemma_not_before(objs, o, i + 1);
    }
}

proof fn lemma_found_last(objs: Seq<ObjV>, o: ObjV, i: int)
    requires
        0 <= i <= objs.len(),
        forall|k: int| i <= k < objs.len() ==> #[trigger] objs[k] != o,
    ensures
        obj_index(objs.push(o), o, i) == objs.len(),
    decreases objs.len() - i,
{
    if i < objs.len() {
        assert(objs.push(o)[i] == objs[i]);
        lemma_found_last(objs, o, i + 1);
    }
}

// ── A unit under construction ───────────────────────────────────────────

/// An entry of a literal frame.
#[derive(Debug)]
pub enum Entry {
    Value(LitRef),
    /// The class of arrays itself.
    ArrayClass,
    /// A class variable: the class, counted from the method's own upwards, and the variable.
    ClassVar { class: usize, var: usize },
    Global(String),
    /// One of the unit's blocks.
    Block(usize),
}

/// An entry, as the contracts see it.
pub enum EntryV {
    Value(LitV),
    ArrayClass,
    ClassVar(nat, nat),
    Global(Seq<char>),
    Block(nat),
}

/// A send site.
#[derive(Debug)]
pub struct IcSite {
    pub selector: String,
    pub argc: u8,
    pub super_: bool,
}

/// A slot of a foreign function's descriptor.
#[derive(Debug)]
pub enum DescSlot {
    Symbol(String),
    Bool(bool),
    Nil,
    Symbols(Vec<String>),
}

/// A compiled method or block.
#[derive(Debug)]
pub struct CompiledMethod {
    pub selector: String,
    pub argc: usize,
    pub ntemps: usize,
    pub has_ctx: bool,
    pub is_block: bool,
    pub prim_fails: bool,
    pub captures_ctx: bool,
    pub nctx: usize,
    /// The primitive's number; zero for none.
    pub primitive: i64,
    pub code: Vec<Instr>,
    /// Empty where there is a descriptor.
    pub literals: Vec<Entry>,
    pub objects: Vec<LitObj>,
    pub blocks: Vec<CompiledMethod>,
    pub ics: Vec<IcSite>,
    /// For a method: the line, counted from the method's first, of each statement's code.
    pub line_map: Vec<(usize, u32)>,
    /// For a foreign function.
    pub descriptor: Option<Vec<DescSlot>>,
}

/// A send site, as the contracts see it.
pub struct SiteV {
    pub selector: Seq<char>,
    pub argc: u8,
    pub super_: bool,
}

/// A compiled unit, as the contracts see it.
#[verifier::ext_equal]
pub struct UnitV {
    pub selector: Seq<char>,
    pub argc: usize,
    pub ntemps: usize,
    pub has_ctx: bool,
    pub is_block: bool,
    pub prim_fails: bool,
    pub captures_ctx: bool,
    pub nctx: usize,
    pub primitive: i64,
    pub code: Seq<Instr>,
    pub literals: Seq<EntryV>,
    pub objects: Seq<ObjV>,
    pub blocks: Seq<UnitV>,
    pub ics: Seq<SiteV>,
    pub line_map: Seq<(usize, u32)>,
    pub descriptor: Option<Seq<SlotV>>,
}

/// A descriptor's slot, as the contracts see it.
pub enum SlotV {
    Symbol(Seq<char>),
    Bool(bool),
    Nil,
    Symbols(Seq<Seq<char>>),
}

pub open spec fn slot_view(s: DescSlot) -> SlotV {
    match s {
        DescSlot::Symbol(t) => SlotV::Symbol(t@),
        DescSlot::Bool(b) => SlotV::Bool(b),
        DescSlot::Nil => SlotV::Nil,
        DescSlot::Symbols(v) => SlotV::Symbols(texts(v@)),
    }
}

pub open spec fn slots_view(v: Seq<DescSlot>) -> Seq<SlotV> {
    Seq::new(v.len(), |i: int| slot_view(v[i]))
}

pub open spec fn entry_view(e: Entry) -> EntryV {
    match e {
        Entry::Value(r) => EntryV::Value(ref_view(r)),
        Entry::ArrayClass => EntryV::ArrayClass,
        Entry::ClassVar { class, var } => EntryV::ClassVar(class as nat, var as nat),
        Entry::Global(s) => EntryV::Global(s@),
        Entry::Block(i) => EntryV::Block(i as nat),
    }
}

pub open spec fn entries_view(v: Seq<Entry>) -> Seq<EntryV> {
    Seq::new(v.len(), |i: int| entry_view(v[i]))
}

pub open spec fn site_view(s: IcSite) -> SiteV {
    SiteV { selector: s.selector@, argc: s.argc, super_: s.super_ }
}

pub open spec fn sites_view(v: Seq<IcSite>) -> Seq<SiteV> {
    Seq::new(v.len(), |i: int| site_view(v[i]))
}

pub open spec fn unit_view(m: CompiledMethod) -> UnitV
    decreases m, 0int,
{
    UnitV {
        selector: m.selector@,
        argc: m.argc,
        ntemps: m.ntemps,
        has_ctx: m.has_ctx,
        is_block: m.is_block,
        prim_fails: m.prim_fails,
        captures_ctx: m.captures_ctx,
        nctx: m.nctx,
        primitive: m.primitive,
        code: m.code@,
        literals: entries_view(m.literals@),
        objects: objs_view(m.objects@),
        blocks: units_view(m.blocks@, m.blocks@.len() as int),
        ics: sites_view(m.ics@),
        line_map: m.line_map@,
        descriptor: match m.descriptor {
            Some(d) => Some(slots_view(d@)),
            None => None,
        },
    }
}

/// The first `k` units.
pub open spec fn units_view(v: Seq<CompiledMethod>, k: int) -> Seq<UnitV>
    decreases v, k,
{
    if k <= 0 || k > v.len() {
        Seq::empty()
    } else {
        units_view(v, k - 1).push(unit_view(v[k - 1]))
    }
}

/// What a unit has been compiled to so far. After a failure nothing is added.
#[verifier::ext_equal]
pub struct Out {
    pub code: Seq<Instr>,
    pub lits: Seq<EntryV>,
    pub objs: Seq<ObjV>,
    pub blocks: Seq<UnitV>,
    pub ics: Seq<SiteV>,
    /// Where each statement's code starts, and its line.
    pub lines: Seq<(usize, u32)>,
    /// The next frame slot for a dissolved block's variable.
    pub next: usize,
    /// The globals there are.
    pub globals: Seq<Seq<char>>,
    pub err: Option<(Span, Seq<char>)>,
}

/// The next slot number.
pub open spec fn succ(n: usize) -> usize {
    if n < usize::MAX {
        (n + 1) as usize
    } else {
        n
    }
}

/// The index of an entry, from `i` on; the length where it is new.
pub open spec fn entry_index(lits: Seq<EntryV>, e: EntryV, i: int) -> int
    decreases lits.len() - i,
{
    if i < 0 || i >= lits.len() {
        lits.len() as int
    } else if lits[i] == e {
        i
    } else {
        entry_index(lits, e, i + 1)
    }
}

impl Out {
    pub open spec fn put(self, i: Instr) -> Out {
        if self.err is Some {
            self
        } else {
            Out { code: self.code.push(i), ..self }
        }
    }

    /// Fills in the instruction at a place.
    pub open spec fn fix(self, at: int, i: Instr) -> Out {
        if self.err is Some {
            self
        } else {
            Out { code: self.code.update(at, i), ..self }
        }
    }

    /// Where the next instruction goes.
    pub open spec fn here(self) -> usize {
        self.code.len() as usize
    }

    pub open spec fn fail(self, span: Span, msg: Seq<char>) -> Out {
        if self.err is Some {
            self
        } else {
            Out { err: Some((span, msg)), ..self }
        }
    }

    /// The frame with an entry in it; equal entries share a place.
    pub open spec fn with_entry(self, e: EntryV) -> Out {
        if self.err is Some || entry_index(self.lits, e, 0) < self.lits.len() {
            self
        } else {
            Out { lits: self.lits.push(e), ..self }
        }
    }

    /// The place of an entry.
    pub open spec fn entry_at(self, e: EntryV) -> u32 {
        entry_index(self.lits, e, 0) as u32
    }

    pub open spec fn push_entry(self, e: EntryV) -> Out {
        self.with_entry(e).put(Instr::PushLiteral(self.entry_at(e)))
    }

    /// A send with a site of its own.
    pub open spec fn send(self, selector: Seq<char>, argc: u8, super_: bool) -> Out {
        if self.err is Some {
            self
        } else {
            Out { ics: self.ics.push(SiteV { selector, argc, super_ }), ..self }.put(
                Instr::Send { ic: self.ics.len() as u32, super_ },
            )
        }
    }

    pub open spec fn line(self, line: u32) -> Out {
        if self.err is Some {
            self
        } else {
            Out { lines: self.lines.push((self.here(), line)), ..self }
        }
    }

    /// A fresh frame slot taken.
    pub open spec fn took(self) -> Out {
        if self.err is Some {
            self
        } else {
            Out { next: succ(self.next), ..self }
        }
    }

    /// A literal. Small integers of a byte, nil and the booleans have instructions of their own.
    pub open spec fn literal(self, lit: Literal) -> Out {
        if self.err is Some {
            self
        } else {
            match lit {
                Literal::Nil => self.put(Instr::PushNil),
                Literal::True => self.put(Instr::PushTrue),
                Literal::False => self.put(Instr::PushFalse),
                Literal::Int(v) => self.number(v),
                _ => {
                    let (v, objs) = literal_value(self.objs, lit);
                    Out { objs, ..self }.push_entry(EntryV::Value(v))
                },
            }
        }
    }

    pub open spec fn number(self, v: i64) -> Out {
        if -128 <= v <= 127 {
            self.put(Instr::PushSmi(v as i8))
        } else {
            self.push_entry(EntryV::Value(LitV::Smi(v)))
        }
    }
}

// ── Names ───────────────────────────────────────────────────────────────

/// The variables that a class declares.
#[derive(Debug)]
pub struct KlassVars {
    pub inst_vars: Vec<String>,
    pub class_vars: Vec<String>,
}

/// What the machine allows of a method.
#[derive(Clone, Copy, Debug, PartialEq, Eq, Structural)]
pub struct MethodLimits {
    pub argc_max: usize,
    pub ntemps_max: usize,
    pub nctx_max: usize,
    /// The most arguments of a primitive.
    pub primitive_args_max: usize,
    /// The primitive number of a foreign function.
    pub ffi_primitive: i64,
}

/// Where a method is compiled: its class and those above it, the nearest first.
#[derive(Debug)]
pub struct Holder {
    pub chain: Vec<KlassVars>,
    pub limits: MethodLimits,
}

/// The instance variables of the first `k` classes, the topmost class's first.
pub open spec fn flat_inst_vars(chain: Seq<KlassVars>, k: int) -> Seq<Seq<char>>
    decreases chain.len() - k,
{
    if k < 0 || k >= chain.len() {
        Seq::empty()
    } else {
        flat_inst_vars(chain, k + 1) + texts(chain[k].inst_vars@)
    }
}

/// The index of a name, from `i` on; the length where there is none.
pub open spec fn name_index(names: Seq<Seq<char>>, name: Seq<char>, i: int) -> int
    decreases names.len() - i,
{
    if i < 0 || i >= names.len() {
        names.len() as int
    } else if names[i] == name {
        i
    } else {
        name_index(names, name, i + 1)
    }
}

/// A class variable of the nearest class, from the `k`-th on, that declares one of the name.
pub open spec fn class_var(chain: Seq<KlassVars>, name: Seq<char>, k: int) -> Option<EntryV>
    decreases chain.len() - k,
{
    if k < 0 || k >= chain.len() {
        None
    } else {
        let names = texts(chain[k].class_vars@);
        let i = name_index(names, name, 0);
        if i < names.len() {
            Some(EntryV::ClassVar(k as nat, i as nat))
        } else {
            class_var(chain, name, k + 1)
        }
    }
}

/// Whether a character is an upper-case letter.
pub uninterp spec fn upper_case(c: char) -> bool;

/// `char::is_uppercase` of the standard library: whether a character has Unicode's property
/// Uppercase. The property is named, not spelled out; of the ASCII characters the letters from
/// `A` to `Z` have it.
#[verifier::external_body]
fn is_upper_case(c: char) -> (r: bool)
    ensures
        r == upper_case(c),
        c as u32 <= 127 ==> r == ('A' <= c <= 'Z'),
{
    c.is_uppercase()
}

/// Whether a name that nothing declares becomes a global: it is assigned at top level, and starts
/// with an upper-case letter.
pub open spec fn declares_global(top_level: bool, is_write: bool, upper: bool) -> bool {
    top_level && is_write && upper
}

/// What is fixed while a unit is compiled.
pub struct Cx<'a> {
    pub holder: &'a Holder,
    pub inst_vars: Vec<String>,
    pub class_side: bool,
    pub top_level: bool,
    pub capture: CaptureInfo,
}

/// What a name stands for.
pub enum VarV {
    Local(u8),
    Captured(u8, u8),
    InstVar(u8),
    Assoc(EntryV),
    Unknown,
}

/// The slot of a dissolved block's variable: the innermost of the name.
pub open spec fn hoisted(h: Seq<(Seq<char>, u8)>, name: Seq<char>) -> Option<u8>
    decreases h.len(),
{
    if h.len() == 0 {
        None
    } else if h.last().0 == name {
        Some(h.last().1)
    } else {
        hoisted(h.drop_last(), name)
    }
}

/// What a name stands for: a captured variable, a dissolved block's variable, a variable of the
/// frame, an instance variable, a class variable, a global, in this order.
pub open spec fn meaning(
    cx: Cx,
    h: Seq<(Seq<char>, u8)>,
    sid: u32,
    name: Seq<char>,
    is_write: bool,
    globals: Seq<Seq<char>>,
) -> VarV {
    let inst = name_index(texts(cx.inst_vars@), name, 0);
    match resolution(cx.capture.scopes@, sid, sid, name) {
        Some(Resolved::Captured { depth, ctx_slot }) => VarV::Captured(depth, ctx_slot),
        local => match hoisted(h, name) {
            Some(slot) => VarV::Local(slot),
            None => match local {
                Some(Resolved::Local(s)) => VarV::Local(s as u8),
                _ => if !cx.class_side && inst < cx.inst_vars@.len() {
                    VarV::InstVar(inst as u8)
                } else {
                    match class_var(cx.holder.chain@, name, 0) {
                        Some(e) => VarV::Assoc(e),
                        None => if globals.contains(name) || declares_global(
                            cx.top_level,
                            is_write,
                            name.len() > 0 && upper_case(name[0]),
                        ) {
                            VarV::Assoc(EntryV::Global(name))
                        } else {
                            VarV::Unknown
                        },
                    }
                },
            },
        },
    }
}

/// The message about a name that nothing declares.
pub open spec fn undeclared(name: Seq<char>) -> Seq<char> {
    "undeclared variable '"@ + name + "'"@
}

impl Out {
    /// A new global, where the name is none yet.
    pub open spec fn declare(self, e: EntryV) -> Out {
        match e {
            EntryV::Global(name) => if self.err is None && !self.globals.contains(name) {
                Out { globals: self.globals.push(name), ..self }
            } else {
                self
            },
            _ => self,
        }
    }

    pub open spec fn load(self, cx: Cx, h: Seq<(Seq<char>, u8)>, sid: u32, name: Seq<char>, span: Span) -> Out {
        if self.err is Some {
            self
        } else {
            match meaning(cx, h, sid, name, false, self.globals) {
                VarV::Local(s) => self.put(Instr::PushTemp(s)),
                VarV::Captured(depth, slot) => self.put(Instr::PushCtxTemp { depth, slot }),
                VarV::InstVar(i) => self.put(Instr::PushInstvar(i)),
                VarV::Assoc(e) => self.with_entry(e).put(Instr::PushGlobal(self.entry_at(e))),
                VarV::Unknown => self.fail(span, undeclared(name)),
            }
        }
    }

    pub open spec fn store(self, cx: Cx, h: Seq<(Seq<char>, u8)>, sid: u32, name: Seq<char>, span: Span) -> Out {
        if self.err is Some {
            self
        } else {
            match meaning(cx, h, sid, name, true, self.globals) {
                VarV::Local(s) => self.put(Instr::StoreTempPop(s)),
                VarV::Captured(depth, slot) => self.put(Instr::StoreCtxTempPop { depth, slot }),
                VarV::InstVar(i) => self.put(Instr::StoreInstvarPop(i)),
                VarV::Assoc(e) => self.declare(e).with_entry(e).put(Instr::StoreGlobalPop(self.entry_at(e))),
                VarV::Unknown => self.fail(span, undeclared(name)),
            }
        }
    }
}

// ── The code of each construct ──────────────────────────────────────────

/// A return in statement position only.
pub open spec fn placed(e: Expr) -> bool
    decreases e, 0int,
{
    match e {
        Expr::Assign { value, .. } => placed(*value),
        Expr::Send { receiver, args, .. } => placed(*receiver) && placed_list(args@, args@.len() as int),
        Expr::Cascade { receiver, segments, .. } => placed(*receiver) && placed_list(
            segments@,
            segments@.len() as int,
        ),
        Expr::DynArray { elems, .. } => placed_list(elems@, elems@.len() as int),
        Expr::Return { .. } => false,
        Expr::Block(b) => placed_body(b.body@, b.body@.len() as int),
        _ => true,
    }
}

pub open spec fn placed_list(es: Seq<Expr>, k: int) -> bool
    decreases es, k,
{
    if k <= 0 || k > es.len() {
        true
    } else {
        placed_list(es, k - 1) && placed(es[k - 1])
    }
}

/// Statements, which may be returns.
pub open spec fn placed_body(es: Seq<Expr>, k: int) -> bool
    decreases es, k,
{
    if k <= 0 || k > es.len() {
        true
    } else {
        placed_body(es, k - 1) && match es[k - 1] {
            Expr::Return { value, .. } => placed(*value),
            e => placed(e),
        }
    }
}

/// Variables of a dissolved block with their fresh slots, after those around them.
pub open spec fn bound(h: Seq<(Seq<char>, u8)>, names: Seq<Seq<char>>, next: usize, k: int) -> Seq<(Seq<char>, u8)>
    decreases k,
{
    if k <= 0 {
        h
    } else {
        bound(h, names, next, k - 1).push((names[k - 1], after(next, k - 1) as u8))
    }
}

/// The slot number `k` further.
pub open spec fn after(next: usize, k: int) -> usize
    decreases k,
{
    if k <= 0 {
        next
    } else {
        succ(after(next, k - 1))
    }
}

/// A block's names: parameters, then temporaries.
pub open spec fn block_names(b: BlockNode) -> Seq<Seq<char>> {
    texts(b.params@) + texts(b.temps@)
}

/// The variables in view inside a dissolved block.
pub open spec fn inside(h: Seq<(Seq<char>, u8)>, b: BlockNode, o: Out) -> Seq<(Seq<char>, u8)> {
    bound(h, block_names(b), o.next, block_names(b).len() as int)
}

impl Out {
    /// A dissolved block's slots taken.
    pub open spec fn took_block(self, b: BlockNode) -> Out {
        if self.err is Some {
            self
        } else {
            Out { next: after(self.next, block_names(b).len() as int), ..self }
        }
    }

    /// A return: out of the home method inside a block.
    pub open spec fn ret(self, in_block: bool) -> Out {
        self.put(
            if in_block {
                Instr::NlrTos
            } else {
                Instr::ReturnTos
            },
        )
    }
}

/// The code of an expression. It leaves one value.
pub open spec fn expr(cx: Cx, in_block: bool, h: Seq<(Seq<char>, u8)>, sid: u32, e: Expr, o: Out) -> Out
    decreases e, 3int,
{
    if o.err is Some {
        o
    } else {
        match e {
            Expr::SelfRef(_) => o.put(Instr::PushSelf),
            Expr::CascadeRcvr(_) => o,
            Expr::Var { name, span } => o.load(cx, h, sid, name@, span),
            Expr::Lit { value, .. } => o.literal(value),
            Expr::Assign { name, value, span } => expr(cx, in_block, h, sid, *value, o).put(Instr::Dup).store(
                cx,
                h,
                sid,
                name@,
                span,
            ),
            Expr::Send { receiver, selector, args, is_super, .. } => match send_positions(
                selector@,
                *receiver,
                args@,
                is_super,
            ) {
                Some(_) => inlined(cx, in_block, h, sid, e, o),
                None => exprs(
                    cx,
                    in_block,
                    h,
                    sid,
                    args@,
                    args@.len() as int,
                    expr(cx, in_block, h, sid, *receiver, o),
                ).send(selector@, args@.len() as u8, is_super),
            },
            Expr::Cascade { receiver, segments, .. } => cascade(
                cx,
                in_block,
                h,
                sid,
                segments@,
                segments@.len() as int,
                expr(cx, in_block, h, sid, *receiver, o),
            ),
            Expr::DynArray { elems, .. } => elements(
                cx,
                in_block,
                h,
                sid,
                elems@,
                elems@.len() as int,
                o.push_entry(EntryV::ArrayClass).number(elems@.len() as i64).send("new:"@, 1, false),
            ),
            Expr::Block(b) => block_literal(cx, *b, o),
            Expr::Return { .. } => o,
        }
    }
}

/// The first `k` arguments.
pub open spec fn exprs(
    cx: Cx,
    in_block: bool,
    h: Seq<(Seq<char>, u8)>,
    sid: u32,
    es: Seq<Expr>,
    k: int,
    o: Out,
) -> Out
    decreases es, k,
{
    if k <= 0 || k > es.len() {
        o
    } else {
        expr(cx, in_block, h, sid, es[k - 1], exprs(cx, in_block, h, sid, es, k - 1, o))
    }
}

/// The first `k` segments of a cascade: all but the last work on a copy of the receiver.
pub open spec fn cascade(
    cx: Cx,
    in_block: bool,
    h: Seq<(Seq<char>, u8)>,
    sid: u32,
    es: Seq<Expr>,
    k: int,
    o: Out,
) -> Out
    decreases es, k,
{
    if k <= 0 || k > es.len() {
        o
    } else {
        let prev = cascade(cx, in_block, h, sid, es, k - 1, o);
        if k < es.len() {
            expr(cx, in_block, h, sid, es[k - 1], prev.put(Instr::Dup)).put(Instr::Pop)
        } else {
            expr(cx, in_block, h, sid, es[k - 1], prev)
        }
    }
}

/// The first `k` elements of a brace array, each put into the array below.
pub open spec fn elements(
    cx: Cx,
    in_block: bool,
    h: Seq<(Seq<char>, u8)>,
    sid: u32,
    es: Seq<Expr>,
    k: int,
    o: Out,
) -> Out
    decreases es, k,
{
    if k <= 0 || k > es.len() {
        o
    } else {
        let prev = elements(cx, in_block, h, sid, es, k - 1, o);
        expr(cx, in_block, h, sid, es[k - 1], prev.put(Instr::Dup).number(k as i64)).send("at:put:"@, 2, false).put(
            Instr::Pop,
        )
    }
}

/// A dissolved block: its statements, with its variables in fresh slots.
pub open spec fn dissolved(cx: Cx, in_block: bool, h: Seq<(Seq<char>, u8)>, sid: u32, e: Expr, o: Out) -> Out
    decreases e, 1int,
{
    match e {
        Expr::Block(b) => values(cx, in_block, inside(h, *b, o), sid, b.body@, o.took_block(*b)),
        _ => o,
    }
}

/// The arm that runs for a value other than nil, which is on the stack: a parameter takes it, in its
/// frame slot, or in its context slot where a nested block captures it.
pub open spec fn not_nil_arm(cx: Cx, in_block: bool, h: Seq<(Seq<char>, u8)>, sid: u32, e: Expr, o: Out) -> Out
    decreases e, 2int,
{
    match e {
        Expr::Block(b) => if b.params@.len() == 0 {
            dissolved(cx, in_block, h, sid, e, o.put(Instr::Pop))
        } else {
            let h2 = inside(h, *b, o);
            values(
                cx,
                in_block,
                h2,
                sid,
                b.body@,
                o.took_block(*b).store(cx, h2, sid, b.params@[0]@, b.span),
            )
        },
        _ => o,
    }
}

/// Statements that leave the last one's value; nil where there are none. A return goes by the
/// unit around.
pub open spec fn values(cx: Cx, in_block: bool, h: Seq<(Seq<char>, u8)>, sid: u32, es: Seq<Expr>, o: Out) -> Out
    decreases es, es.len() + 1,
{
    if es.len() == 0 {
        o.put(Instr::PushNil)
    } else {
        let n = es.len() as int;
        let prev = discards(cx, in_block, h, sid, es, n - 1, o);
        match es[n - 1] {
            Expr::Return { value, .. } => expr(cx, in_block, h, sid, *value, prev).ret(in_block),
            last => value_of(cx, in_block, h, sid, last, prev),
        }
    }
}

/// A statement that leaves its value.
pub open spec fn value_of(cx: Cx, in_block: bool, h: Seq<(Seq<char>, u8)>, sid: u32, e: Expr, o: Out) -> Out
    decreases e, 4int,
{
    let o1 = o.line(e.span().line);
    match e {
        Expr::Assign { name, value, span } => expr(cx, in_block, h, sid, *value, o1).put(Instr::Dup).store(
            cx,
            h,
            sid,
            name@,
            span,
        ),
        _ => expr(cx, in_block, h, sid, e, o1),
    }
}

/// The first `k` statements, which leave nothing.
pub open spec fn discards(
    cx: Cx,
    in_block: bool,
    h: Seq<(Seq<char>, u8)>,
    sid: u32,
    es: Seq<Expr>,
    k: int,
    o: Out,
) -> Out
    decreases es, k,
{
    if k <= 0 || k > es.len() {
        o
    } else {
        discard(cx, in_block, h, sid, es[k - 1], discards(cx, in_block, h, sid, es, k - 1, o))
    }
}

/// A statement that leaves nothing.
pub open spec fn discard(cx: Cx, in_block: bool, h: Seq<(Seq<char>, u8)>, sid: u32, e: Expr, o: Out) -> Out
    decreases e, 4int,
{
    let o1 = o.line(e.span().line);
    match e {
        Expr::Return { value, .. } => expr(cx, in_block, h, sid, *value, o1).ret(in_block),
        Expr::Assign { name, value, span } => expr(cx, in_block, h, sid, *value, o1).store(cx, h, sid, name@, span),
        _ => expr(cx, in_block, h, sid, e, o1).put(Instr::Pop),
    }
}

impl Out {
    /// The receiver copied and compared with nil.
    pub open spec fn nil_test(self) -> Out {
        self.put(Instr::Dup).put(Instr::PushNil).send("=="@, 1, false)
    }

    /// The test of a counted loop.
    pub open spec fn loop_test(self, i: u8, limit: u8) -> Out {
        self.put(Instr::PushTemp(i)).put(Instr::PushTemp(limit)).send("<="@, 1, false)
    }

    /// The step of a counted loop, and back to its test.
    pub open spec fn loop_step(self, i: u8, test: usize) -> Out {
        self.put(Instr::PushTemp(i)).put(Instr::PushSmi(1)).send("+"@, 1, false).put(Instr::StoreTempPop(i)).put(
            Instr::JumpBack(test),
        )
    }
}

/// A branch on a boolean: over the code that follows where it is false, or where it is true.
pub open spec fn branch(when_true: bool, target: usize) -> Instr {
    if when_true {
        Instr::BrTrueFwd(target)
    } else {
        Instr::BrFalseFwd(target)
    }
}

/// The number of arguments of a control-flow selector.
pub open spec fn arity(c: Control) -> nat {
    match c {
        Control::WhileTrue | Control::WhileFalse | Control::Repeat => 0,
        Control::IfTrueIfFalse | Control::IfFalseIfTrue | Control::IfNilIfNotNil | Control::IfNotNilIfNil | Control::ToDo => 2,
        _ => 1,
    }
}

/// The code of a dissolved control-flow send.
pub open spec fn inlined(cx: Cx, in_block: bool, h: Seq<(Seq<char>, u8)>, sid: u32, e: Expr, o: Out) -> Out
    decreases e, 2int,
{
    match e {
        Expr::Send { receiver, selector, args, .. } => match control_of(selector@) {
            Some(c) => if args@.len() != arity(c) {
                o
            } else {
                match c {
                Control::IfTrue | Control::IfFalse | Control::And | Control::Or => {
                    // condition, branch to `other`, body, jump to `end`, other, end
                    let over = c is IfFalse || c is Or;
                    let o1 = expr(cx, in_block, h, sid, *receiver, o);
                    let o2 = dissolved(cx, in_block, h, sid, args@[0], o1.put(branch(over, 0))).put(Instr::JumpFwd(0));
                    let o3 = o2.fix(o1.code.len() as int, branch(over, o2.here())).put(
                        if c is And {
                            Instr::PushFalse
                        } else if c is Or {
                            Instr::PushTrue
                        } else {
                            Instr::PushNil
                        },
                    );
                    o3.fix(o2.code.len() - 1, Instr::JumpFwd(o3.here()))
                },
                Control::IfTrueIfFalse | Control::IfFalseIfTrue => {
                    let (t, f) = if c is IfTrueIfFalse {
                        (args@[0], args@[1])
                    } else {
                        (args@[1], args@[0])
                    };
                    let o1 = expr(cx, in_block, h, sid, *receiver, o);
                    let o2 = dissolved(cx, in_block, h, sid, t, o1.put(branch(false, 0))).put(Instr::JumpFwd(0));
                    let o3 = dissolved(
                        cx,
                        in_block,
                        h,
                        sid,
                        f,
                        o2.fix(o1.code.len() as int, branch(false, o2.here())),
                    );
                    o3.fix(o2.code.len() - 1, Instr::JumpFwd(o3.here()))
                },
                Control::WhileTrueDo | Control::WhileFalseDo => {
                    let over = c is WhileFalseDo;
                    let o1 = dissolved(cx, in_block, h, sid, *receiver, o);
                    let o2 = dissolved(cx, in_block, h, sid, args@[0], o1.put(branch(over, 0))).put(Instr::Pop).put(
                        Instr::JumpBack(o.here()),
                    );
                    o2.fix(o1.code.len() as int, branch(over, o2.here())).put(Instr::PushNil)
                },
                Control::WhileTrue | Control::WhileFalse => {
                    let over = c is WhileFalse;
                    let o1 = dissolved(cx, in_block, h, sid, *receiver, o);
                    let o2 = o1.put(branch(over, 0)).put(Instr::JumpBack(o.here()));
                    o2.fix(o1.code.len() as int, branch(over, o2.here())).put(Instr::PushNil)
                },
                Control::TimesRepeat => {
                    // the limit and the counter are two fresh slots; the receiver is the result
                    let o1 = expr(cx, in_block, h, sid, *receiver, o).put(Instr::Dup);
                    let limit = o1.next as u8;
                    let i = succ(o1.next) as u8;
                    let o2 = o1.took().put(Instr::StoreTempPop(limit)).took().put(Instr::PushSmi(1)).put(
                        Instr::StoreTempPop(i),
                    );
                    let o3 = o2.loop_test(i, limit);
                    let o4 = match args@[0] {
                        Expr::Block(b) => values(cx, in_block, h, sid, b.body@, o3.put(branch(false, 0))),
                        _ => o3,
                    };
                    let o5 = o4.put(Instr::Pop).loop_step(i, o2.here());
                    o5.fix(o3.code.len() as int, branch(false, o5.here()))
                },
                Control::IfNil => {
                    // a value other than nil stays as the result
                    let o1 = expr(cx, in_block, h, sid, *receiver, o).nil_test();
                    let o2 = dissolved(cx, in_block, h, sid, args@[0], o1.put(branch(false, 0)).put(Instr::Pop)).put(
                        Instr::JumpFwd(0),
                    );
                    o2.fix(o1.code.len() as int, branch(false, o2.here())).fix(
                        o2.code.len() - 1,
                        Instr::JumpFwd(o2.here()),
                    )
                },
                Control::IfNotNil => {
                    let o1 = expr(cx, in_block, h, sid, *receiver, o).nil_test();
                    let o2 = not_nil_arm(cx, in_block, h, sid, args@[0], o1.put(branch(true, 0))).put(Instr::JumpFwd(0));
                    o2.fix(o1.code.len() as int, branch(true, o2.here())).fix(
                        o2.code.len() - 1,
                        Instr::JumpFwd(o2.here()),
                    )
                },
                Control::IfNilIfNotNil => {
                    let o1 = expr(cx, in_block, h, sid, *receiver, o).nil_test();
                    let o2 = dissolved(cx, in_block, h, sid, args@[0], o1.put(branch(false, 0)).put(Instr::Pop)).put(
                        Instr::JumpFwd(0),
                    );
                    let o3 = not_nil_arm(
                        cx,
                        in_block,
                        h,
                        sid,
                        args@[1],
                        o2.fix(o1.code.len() as int, branch(false, o2.here())),
                    );
                    o3.fix(o2.code.len() - 1, Instr::JumpFwd(o3.here()))
                },
                Control::IfNotNilIfNil => {
                    let o1 = expr(cx, in_block, h, sid, *receiver, o).nil_test();
                    let o2 = not_nil_arm(cx, in_block, h, sid, args@[0], o1.put(branch(true, 0))).put(Instr::JumpFwd(0));
                    let o3 = dissolved(
                        cx,
                        in_block,
                        h,
                        sid,
                        args@[1],
                        o2.fix(o1.code.len() as int, branch(true, o2.here())).put(Instr::Pop),
                    );
                    o3.fix(o2.code.len() - 1, Instr::JumpFwd(o3.here()))
                },
                Control::Repeat => dissolved(cx, in_block, h, sid, *receiver, o).put(Instr::Pop).put(
                    Instr::JumpBack(o.here()),
                ).put(Instr::PushNil),
                Control::ToDo => {
                    // the loop variable and the limit are fresh slots; the receiver is the result
                    let o1 = expr(cx, in_block, h, sid, *receiver, o).put(Instr::Dup);
                    let i = o1.next as u8;
                    let o2 = expr(cx, in_block, h, sid, args@[0], o1.took().put(Instr::StoreTempPop(i)));
                    let limit = o2.next as u8;
                    let o3 = o2.took().put(Instr::StoreTempPop(limit));
                    let o4 = o3.loop_test(i, limit);
                    let o5 = match args@[1] {
                        Expr::Block(b) => values(
                            cx,
                            in_block,
                            h.push((b.params@[0]@, i)),
                            sid,
                            b.body@,
                            o4.put(branch(false, 0)),
                        ),
                        _ => o4,
                    };
                    let o6 = o5.put(Instr::Pop).loop_step(i, o3.here());
                    o6.fix(o4.code.len() as int, branch(false, o6.here()))
                },
                }
            },
            None => o,
        },
        _ => o,
    }
}

/// How a body ends.
#[derive(Clone, Copy, Debug, PartialEq, Eq, Structural)]
pub enum BodyKind {
    /// The receiver is returned.
    Method,
    /// The last statement's value is returned.
    DoIt,
    /// The last statement's value is the block's.
    Block,
}

/// The code of a body.
pub open spec fn body(cx: Cx, kind: BodyKind, sid: u32, es: Seq<Expr>, o: Out) -> Out
    decreases es, es.len() + 1,
{
    let h = Seq::<(Seq<char>, u8)>::empty();
    let n = es.len() as int;
    if n == 0 {
        if kind is Block {
            o.put(Instr::PushNil).put(Instr::BlockReturnTos)
        } else {
            o.put(Instr::ReturnSelf)
        }
    } else if kind is Method {
        discards(cx, false, h, sid, es, n, o).put(Instr::ReturnSelf)
    } else {
        let in_block = kind is Block;
        let prev = discards(cx, in_block, h, sid, es, n - 1, o);
        match es[n - 1] {
            Expr::Return { value, .. } => expr(cx, in_block, h, sid, *value, prev).ret(in_block),
            last => value_of(cx, in_block, h, sid, last, prev).put(
                if in_block {
                    Instr::BlockReturnTos
                } else {
                    Instr::ReturnTos
                },
            ),
        }
    }
}

/// The first `k` parameters, those captured moved to the context.
pub open spec fn prologue(info: ScopeInfo, k: int, o: Out) -> Out
    decreases k,
{
    if k <= 0 {
        o
    } else {
        let prev = prologue(info, k - 1, o);
        let slot = info.vars@[k - 1].1;
        if slot.captured {
            prev.put(Instr::PushTemp((k - 1) as u8)).put(
                Instr::StoreCtxTempPop { depth: 0, slot: slot.ctx_slot->0 as u8 },
            )
        } else {
            prev
        }
    }
}

/// The moves at a unit's start, where it has a context.
pub open spec fn entry_moves(info: ScopeInfo, o: Out) -> Out {
    if info.has_ctx {
        prologue(
            info,
            if info.argc <= info.vars@.len() {
                info.argc as int
            } else {
                info.vars@.len() as int
            },
            o,
        )
    } else {
        o
    }
}

/// A limit exceeded, as it is reported.
pub open spec fn too_many(what: Seq<char>, n: nat, max: nat) -> Seq<char> {
    "too many "@ + what + " ("@ + dec_text(n) + " > "@ + dec_text(max) + ")"@
}

/// The first limit that a unit exceeds.
pub open spec fn over_limit(l: MethodLimits, argc: nat, ntemps: nat, nctx: nat) -> Option<Seq<char>> {
    if argc > l.argc_max {
        Some(too_many("parameters"@, argc, l.argc_max as nat))
    } else if ntemps > l.ntemps_max {
        Some(too_many("temporaries/locals"@, ntemps, l.ntemps_max as nat))
    } else if nctx > l.nctx_max {
        Some(too_many("captured variables"@, nctx, l.nctx_max as nat))
    } else {
        None
    }
}

/// Two counts together.
pub open spec fn sum(a: usize, b: usize) -> usize {
    if a + b <= usize::MAX {
        (a + b) as usize
    } else {
        usize::MAX
    }
}

/// An empty unit.
pub open spec fn fresh(next: usize, globals: Seq<Seq<char>>) -> Out {
    Out {
        code: Seq::empty(),
        lits: Seq::empty(),
        objs: Seq::empty(),
        blocks: Seq::empty(),
        ics: Seq::empty(),
        lines: Seq::empty(),
        next,
        globals,
        err: None,
    }
}

/// The unit that was built.
pub open spec fn built(o: Out, selector: Seq<char>, argc: usize, info: ScopeInfo, is_block: bool, prim_fails: bool) -> UnitV {
    UnitV {
        selector,
        argc,
        ntemps: (o.next - argc) as usize,
        has_ctx: info.has_ctx,
        is_block,
        prim_fails,
        captures_ctx: is_block && info.captures_ctx,
        nctx: info.nctx,
        primitive: 0,
        code: o.code,
        literals: o.lits,
        objects: o.objs,
        blocks: o.blocks,
        ics: o.ics,
        line_map: Seq::empty(),
        descriptor: None,
    }
}

/// A block: compiled as a unit of its own, which the frame holds.
pub open spec fn block_literal(cx: Cx, b: BlockNode, o: Out) -> Out
    decreases b, 0int,
{
    if o.err is Some {
        o
    } else {
        let info = cx.capture.scopes@[b.scope_id as int];
        let argc = b.params@.len() as usize;
        match over_limit(cx.holder.limits, b.params@.len(), info.frame_temp_count as nat, info.nctx as nat) {
            Some(msg) => o.fail(b.span, msg),
            None => {
                let inner = body(
                    cx,
                    BodyKind::Block,
                    b.scope_id,
                    b.body@,
                    entry_moves(info, fresh(sum(info.frame_temp_count, argc), o.globals)),
                );
                match inner.err {
                    Some(err) => Out { err: Some(err), globals: inner.globals, ..o },
                    None => Out {
                        lits: o.lits.push(EntryV::Block(o.blocks.len())),
                        blocks: o.blocks.push(built(inner, "aBlock"@, argc, info, true, false)),
                        globals: inner.globals,
                        ..o
                    }.put(Instr::PushClosure { lit: o.lits.len() as u32, ncopied: 0 }),
                }
            },
        }
    }
}

// ── Building ────────────────────────────────────────────────────────────

struct Builder {
    code: Vec<Instr>,
    lits: Vec<Entry>,
    objs: Vec<LitObj>,
    blocks: Vec<CompiledMethod>,
    ics: Vec<IcSite>,
    lines: Vec<(usize, u32)>,
    next: usize,
    globals: Vec<String>,
}

spec fn out(b: Builder) -> Out {
    Out {
        code: b.code@,
        lits: entries_view(b.lits@),
        objs: objs_view(b.objs@),
        blocks: units_view(b.blocks@, b.blocks@.len() as int),
        ics: sites_view(b.ics@),
        lines: b.lines@,
        next: b.next,
        globals: texts(b.globals@),
        err: None,
    }
}

/// The builder holds what is specified, or the failure is the one specified.
spec fn done(r: Result<(), CompileError>, before: Builder, b: Builder, o: Out) -> bool {
    match r {
        Ok(_) => o.err is None && out(b) == o && b.code@.len() >= before.code@.len() && b.next >= before.next,
        Err(e) => o.err == Some((e.span, e.msg@)) && e.path is None && !e.eof && texts(b.globals@) == o.globals,
    }
}

spec fn vars_view(h: Seq<(String, u8)>) -> Seq<(Seq<char>, u8)> {
    Seq::new(h.len(), |i: int| (h[i].0@, h[i].1))
}

fn error(span: Span, msg: String) -> (e: CompileError)
    ensures
        e.span == span,
        e.msg == msg,
        e.path is None,
        !e.eof,
{
    CompileError { path: None, span, msg, eof: false }
}

fn next_slot(n: usize) -> (r: usize)
    ensures
        r == succ(n),
{
    if n < usize::MAX {
        n + 1
    } else {
        n
    }
}

fn branch_to(when_true: bool, target: usize) -> (i: Instr)
    ensures
        i == branch(when_true, target),
{
    if when_true {
        Instr::BrTrueFwd(target)
    } else {
        Instr::BrFalseFwd(target)
    }
}

fn same_ref(a: &LitRef, b: &LitRef) -> (r: bool)
    ensures
        r == (ref_view(*a) == ref_view(*b)),
{
    match (a, b) {
        (LitRef::Smi(x), LitRef::Smi(y)) => *x == *y,
        (LitRef::Nil, LitRef::Nil) => true,
        (LitRef::True, LitRef::True) => true,
        (LitRef::False, LitRef::False) => true,
        (LitRef::Symbol(x), LitRef::Symbol(y)) => text_eq(x.as_str(), y.as_str()),
        (LitRef::Obj(x), LitRef::Obj(y)) => *x == *y,
        _ => false,
    }
}

fn same_entry(a: &Entry, b: &Entry) -> (r: bool)
    ensures
        r == (entry_view(*a) == entry_view(*b)),
{
    match (a, b) {
        (Entry::Value(x), Entry::Value(y)) => same_ref(x, y),
        (Entry::ArrayClass, Entry::ArrayClass) => true,
        (Entry::ClassVar { class: c, var: v }, Entry::ClassVar { class: c2, var: v2 }) => *c == *c2 && *v == *v2,
        (Entry::Global(x), Entry::Global(y)) => text_eq(x.as_str(), y.as_str()),
        (Entry::Block(x), Entry::Block(y)) => *x == *y,
        _ => false,
    }
}

proof fn lemma_units_prefix(a: Seq<CompiledMethod>, b: Seq<CompiledMethod>, k: int)
    requires
        0 <= k <= a.len(),
        k <= b.len(),
        forall|i: int| 0 <= i < k ==> a[i] == b[i],
    ensures
        units_view(a, k) == units_view(b, k),
        units_view(a, k).len() == k,
    decreases k,
{
    if k > 0 {
        lemma_units_prefix(a, b, k - 1);
    }
}

impl Builder {
    fn put(&mut self, i: Instr)
        ensures
            out(*final(self)) == out(*old(self)).put(i),
            final(self).code@.len() == old(self).code@.len() + 1,
    {
        self.code.push(i);
    }

    fn fix(&mut self, at: usize, i: Instr)
        requires
            at < old(self).code@.len(),
        ensures
            out(*final(self)) == out(*old(self)).fix(at as int, i),
            final(self).code@.len() == old(self).code@.len(),
    {
        self.code.set(at, i);
    }

    fn here(&self) -> (n: usize)
        ensures
            n == out(*self).here(),
            n == self.code@.len(),
            n == out(*self).code.len(),
    {
        self.code.len()
    }

    fn line(&mut self, line: u32)
        ensures
            out(*final(self)) == out(*old(self)).line(line),
            final(self).code@.len() == old(self).code@.len(),
    {
        let n: usize = self.code.len();
        self.lines.push((n, line));
    }

    fn took(&mut self) -> (slot: u8)
        ensures
            out(*final(self)) == out(*old(self)).took(),
            slot == out(*old(self)).next as u8,
            final(self).code@.len() == old(self).code@.len(),
    {
        let slot: u8 = self.next as u8;
        self.next = next_slot(self.next);
        slot
    }

    /// The place of an entry, which is added where it is new.
    fn entry(&mut self, e: Entry) -> (at: u32)
        ensures
            out(*final(self)) == out(*old(self)).with_entry(entry_view(e)),
            at == out(*old(self)).entry_at(entry_view(e)),
            final(self).code@.len() == old(self).code@.len(),
    {
        let ghost v = entries_view(self.lits@);
        let mut i: usize = 0;
        while i < self.lits.len()
            invariant
                i <= self.lits@.len(),
                *self == *old(self),
                v == entries_view(self.lits@),
                entry_index(v, entry_view(e), 0) == entry_index(v, entry_view(e), i as int),
            decreases self.lits@.len() - i,
        {
            if same_entry(&self.lits[i], &e) {
                return i as u32;
            }
            i += 1;
        }
        self.lits.push(e);
        assert(entries_view(self.lits@) =~= v.push(entry_view(e)));
        i as u32
    }

    fn push_entry(&mut self, e: Entry)
        ensures
            out(*final(self)) == out(*old(self)).push_entry(entry_view(e)),
            final(self).code@.len() == old(self).code@.len() + 1,
    {
        let at: u32 = self.entry(e);
        self.put(Instr::PushLiteral(at));
    }

    fn send(&mut self, selector: &str, argc: u8, super_: bool)
        ensures
            out(*final(self)) == out(*old(self)).send(selector@, argc, super_),
            final(self).code@.len() == old(self).code@.len() + 1,
    {
        let ic: u32 = self.ics.len() as u32;
        let ghost v = sites_view(self.ics@);
        let site = IcSite { selector: selector.to_owned(), argc, super_ };
        let ghost sv = site_view(site);
        self.ics.push(site);
        assert(sites_view(self.ics@) =~= v.push(sv));
        self.put(Instr::Send { ic, super_ });
    }

    fn number(&mut self, v: i64)
        ensures
            out(*final(self)) == out(*old(self)).number(v),
            final(self).code@.len() == old(self).code@.len() + 1,
    {
        if -128 <= v && v <= 127 {
            self.put(Instr::PushSmi(v as i8));
        } else {
            self.push_entry(Entry::Value(LitRef::Smi(v)));
        }
    }

    fn literal(&mut self, lit: &Literal)
        ensures
            out(*final(self)) == out(*old(self)).literal(*lit),
            final(self).code@.len() == old(self).code@.len() + 1,
    {
        match lit {
            Literal::Nil => self.put(Instr::PushNil),
            Literal::True => self.put(Instr::PushTrue),
            Literal::False => self.put(Instr::PushFalse),
            Literal::Int(v) => self.number(*v),
            _ => {
                let v: LitRef = build_literal_value(&mut self.objs, lit);
                self.push_entry(Entry::Value(v));
            },
        }
    }

    fn nil_test(&mut self)
        ensures
            out(*final(self)) == out(*old(self)).nil_test(),
            final(self).code@.len() > old(self).code@.len(),
    {
        self.put(Instr::Dup);
        self.put(Instr::PushNil);
        self.send("==", 1, false);
    }

    fn loop_test(&mut self, i: u8, limit: u8)
        ensures
            out(*final(self)) == out(*old(self)).loop_test(i, limit),
            final(self).code@.len() > old(self).code@.len(),
    {
        self.put(Instr::PushTemp(i));
        self.put(Instr::PushTemp(limit));
        self.send("<=", 1, false);
    }

    fn loop_step(&mut self, i: u8, test: usize)
        ensures
            out(*final(self)) == out(*old(self)).loop_step(i, test),
            final(self).code@.len() > old(self).code@.len(),
    {
        self.put(Instr::PushTemp(i));
        self.put(Instr::PushSmi(1));
        self.send("+", 1, false);
        self.put(Instr::StoreTempPop(i));
        self.put(Instr::JumpBack(test));
    }

    fn ret(&mut self, in_block: bool)
        ensures
            out(*final(self)) == out(*old(self)).ret(in_block),
            final(self).code@.len() == old(self).code@.len() + 1,
    {
        if in_block {
            self.put(Instr::NlrTos);
        } else {
            self.put(Instr::ReturnTos);
        }
    }
}

// ── Names ───────────────────────────────────────────────────────────────

enum VarRef {
    Local(u8),
    Captured { depth: u8, ctx_slot: u8 },
    InstVar(u8),
    Assoc(Entry),
    Unknown,
}

spec fn var_view(v: VarRef) -> VarV {
    match v {
        VarRef::Local(s) => VarV::Local(s),
        VarRef::Captured { depth, ctx_slot } => VarV::Captured(depth, ctx_slot),
        VarRef::InstVar(i) => VarV::InstVar(i),
        VarRef::Assoc(e) => VarV::Assoc(entry_view(e)),
        VarRef::Unknown => VarV::Unknown,
    }
}

fn position(names: &Vec<String>, name: &str) -> (r: usize)
    ensures
        r == name_index(texts(names@), name@, 0),
        r <= names@.len(),
{
    let mut i: usize = 0;
    while i < names.len()
        invariant
            i <= names@.len(),
            name_index(texts(names@), name@, 0) == name_index(texts(names@), name@, i as int),
        decreases names@.len() - i,
    {
        if text_eq(names[i].as_str(), name) {
            return i;
        }
        i += 1;
    }
    i
}

/// The instance variables of a class and those above it, the topmost class's first.
pub fn flatten_inst_vars(chain: &Vec<KlassVars>) -> (names: Vec<String>)
    ensures
        texts(names@) == flat_inst_vars(chain@, 0),
{
    let mut names: Vec<String> = Vec::new();
    let mut k: usize = chain.len();
    assert(texts(names@) =~= flat_inst_vars(chain@, k as int));
    while k > 0
        invariant
            k <= chain@.len(),
            texts(names@) == flat_inst_vars(chain@, k as int),
        decreases k,
    {
        k -= 1;
        let vars: &Vec<String> = &chain[k].inst_vars;
        let ghost before = names@;
        let mut i: usize = 0;
        assert(texts(before) + texts(vars@.take(0)) =~= texts(before));
        while i < vars.len()
            invariant
                i <= vars@.len(),
                texts(names@) == texts(before) + texts(vars@.take(i as int)),
            decreases vars@.len() - i,
        {
            let ghost b1 = names@;
            names.push(vars[i].clone());
            assert(texts(names@) =~= texts(b1).push(vars@[i as int]@));
            assert(texts(vars@.take(i + 1)) =~= texts(vars@.take(i as int)).push(vars@[i as int]@));
            assert(texts(names@) =~= texts(before) + texts(vars@.take(i + 1)));
            i += 1;
        }
        assert(vars@.take(i as int) =~= vars@);
    }
    names
}

/// The nearest class variable of a name.
pub fn find_class_var(chain: &Vec<KlassVars>, name: &str) -> (r: Option<Entry>)
    ensures
        match r {
            Some(e) => class_var(chain@, name@, 0) == Some(entry_view(e)),
            None => class_var(chain@, name@, 0) is None,
        },
{
    let mut k: usize = 0;
    while k < chain.len()
        invariant
            k <= chain@.len(),
            class_var(chain@, name@, 0) == class_var(chain@, name@, k as int),
        decreases chain@.len() - k,
    {
        let i: usize = position(&chain[k].class_vars, name);
        if i < chain[k].class_vars.len() {
            return Some(Entry::ClassVar { class: k, var: i });
        }
        k += 1;
    }
    None
}

fn find_hoisted(h: &Vec<(String, u8)>, name: &str) -> (r: Option<u8>)
    ensures
        r == hoisted(vars_view(h@), name@),
{
    let mut i: usize = h.len();
    assert(h@.take(i as int) =~= h@);
    while i > 0
        invariant
            i <= h@.len(),
            hoisted(vars_view(h@), name@) == hoisted(vars_view(h@.take(i as int)), name@),
        decreases i,
    {
        proof {
            let v = vars_view(h@.take(i as int));
            assert(v.drop_last() =~= vars_view(h@.take(i - 1)));
            assert(v.last() == (h@[i - 1].0@, h@[i - 1].1));
        }
        if text_eq(h[i - 1].0.as_str(), name) {
            return Some(h[i - 1].1);
        }
        i -= 1;
    }
    None
}

proof fn lemma_name_index(names: Seq<Seq<char>>, name: Seq<char>, i: int)
    requires
        0 <= i <= names.len(),
    ensures
        i <= name_index(names, name, i) <= names.len(),
        name_index(names, name, i) < names.len() ==> names[name_index(names, name, i)] == name,
        name_index(names, name, i) == names.len() ==> forall|k: int| i <= k < names.len() ==> names[k] != name,
    decreases names.len() - i,
{
    if i < names.len() {
        lemma_name_index(names, name, i + 1);
    }
}

fn first_upper(name: &str) -> (r: bool)
    ensures
        r == (name@.len() > 0 && upper_case(name@[0])),
{
    let v: Vec<char> = crate::text::chars_of(name);
    v.len() > 0 && is_upper_case(v[0])
}

/// What a name stands for.
fn resolve_var(cx: &Cx, h: &Vec<(String, u8)>, sid: u32, name: &str, is_write: bool, globals: &Vec<String>) -> (r: VarRef)
    requires
        cx.capture.ok(),
        sid < cx.capture.scopes@.len(),
    ensures
        var_view(r) == meaning(*cx, vars_view(h@), sid, name@, is_write, texts(globals@)),
{
    let found: Option<Resolved> = cx.capture.resolve(sid, name);
    match found {
        Some(Resolved::Captured { depth, ctx_slot }) => {
            return VarRef::Captured { depth, ctx_slot };
        },
        _ => {},
    }
    match find_hoisted(h, name) {
        Some(slot) => {
            return VarRef::Local(slot);
        },
        None => {},
    }
    match found {
        Some(Resolved::Local(s)) => {
            return VarRef::Local(s as u8);
        },
        _ => {},
    }
    if !cx.class_side {
        let i: usize = position(&cx.inst_vars, name);
        if i < cx.inst_vars.len() {
            return VarRef::InstVar(i as u8);
        }
    }
    match find_class_var(&cx.holder.chain, name) {
        Some(e) => {
            return VarRef::Assoc(e);
        },
        None => {},
    }
    let g: usize = position(globals, name);
    proof {
        lemma_name_index(texts(globals@), name@, 0);
        if g < globals@.len() {
            assert(texts(globals@)[g as int] == name@);
        }
    }
    if g < globals.len() || (cx.top_level && is_write && first_upper(name)) {
        return VarRef::Assoc(Entry::Global(name.to_owned()));
    }
    VarRef::Unknown
}

fn undeclared_text(name: &str) -> (s: String)
    ensures
        s@ == undeclared(name@),
{
    let mut s: String = String::new();
    s.append("undeclared variable '");
    s.append(name);
    s.append("'");
    assert(s@ =~= undeclared(name@));
    s
}

fn emit_load(cx: &Cx, h: &Vec<(String, u8)>, b: &mut Builder, sid: u32, name: &str, span: Span) -> (r: Result<
    (),
    CompileError,
>)
    requires
        cx.capture.ok(),
        sid < cx.capture.scopes@.len(),
    ensures
        done(r, *old(b), *final(b), out(*old(b)).load(*cx, vars_view(h@), sid, name@, span)),
{
    match resolve_var(cx, h, sid, name, false, &b.globals) {
        VarRef::Local(s) => b.put(Instr::PushTemp(s)),
        VarRef::Captured { depth, ctx_slot } => b.put(Instr::PushCtxTemp { depth, slot: ctx_slot }),
        VarRef::InstVar(i) => b.put(Instr::PushInstvar(i)),
        VarRef::Assoc(e) => {
            let at: u32 = b.entry(e);
            b.put(Instr::PushGlobal(at));
        },
        VarRef::Unknown => {
            return Err(error(span, undeclared_text(name)));
        },
    }
    Ok(())
}

fn emit_store(cx: &Cx, h: &Vec<(String, u8)>, b: &mut Builder, sid: u32, name: &str, span: Span) -> (r: Result<
    (),
    CompileError,
>)
    requires
        cx.capture.ok(),
        sid < cx.capture.scopes@.len(),
    ensures
        done(r, *old(b), *final(b), out(*old(b)).store(*cx, vars_view(h@), sid, name@, span)),
{
    match resolve_var(cx, h, sid, name, true, &b.globals) {
        VarRef::Local(s) => b.put(Instr::StoreTempPop(s)),
        VarRef::Captured { depth, ctx_slot } => b.put(Instr::StoreCtxTempPop { depth, slot: ctx_slot }),
        VarRef::InstVar(i) => b.put(Instr::StoreInstvarPop(i)),
        VarRef::Assoc(e) => {
            match &e {
                Entry::Global(g) => {
                    declare_global(b, g);
                },
                _ => {},
            }
            let at: u32 = b.entry(e);
            b.put(Instr::StoreGlobalPop(at));
        },
        VarRef::Unknown => {
            return Err(error(span, undeclared_text(name)));
        },
    }
    Ok(())
}

fn declare_global(b: &mut Builder, name: &String)
    ensures
        out(*final(b)) == out(*old(b)).declare(EntryV::Global(name@)),
        final(b).code@ == old(b).code@,
{
    let i: usize = position(&b.globals, name.as_str());
    let ghost v = texts(b.globals@);
    proof {
        lemma_name_index(v, name@, 0);
        if i < v.len() {
            assert(v[i as int] == name@);
        }
    }
    if i >= b.globals.len() {
        b.globals.push(name.clone());
        assert(texts(b.globals@) =~= v.push(name@));
    }
}

// ── Scope numbers ───────────────────────────────────────────────────────

/// Every block that is a unit of its own carries the number of one of `n` scopes.
pub open spec fn ids_ok(e: Expr, n: nat) -> bool
    decreases e, 1int,
{
    match e {
        Expr::Assign { value, .. } => ids_ok(*value, n),
        Expr::Send { receiver, selector, args, is_super, .. } => {
            let p = send_positions(selector@, *receiver, args@, is_super);
            ids_ok_at(*receiver, dissolves(p, BlockPos::Receiver), n) && ids_ok_args(args@, p, n, args@.len() as int)
        },
        Expr::Cascade { receiver, segments, .. } => ids_ok(*receiver, n) && ids_ok_list(
            segments@,
            n,
            segments@.len() as int,
        ),
        Expr::DynArray { elems, .. } => ids_ok_list(elems@, n, elems@.len() as int),
        Expr::Return { value, .. } => ids_ok(*value, n),
        Expr::Block(b) => b.scope_id < n && ids_ok_list(b.body@, n, b.body@.len() as int),
        _ => true,
    }
}

pub open spec fn ids_ok_at(e: Expr, dissolved: bool, n: nat) -> bool
    decreases e, 2int,
{
    if dissolved {
        match e {
            Expr::Block(b) => ids_ok_list(b.body@, n, b.body@.len() as int),
            _ => true,
        }
    } else {
        ids_ok(e, n)
    }
}

pub open spec fn ids_ok_args(es: Seq<Expr>, p: Option<Seq<BlockPos>>, n: nat, k: int) -> bool
    decreases es, k,
{
    if k <= 0 || k > es.len() {
        true
    } else {
        ids_ok_args(es, p, n, k - 1) && ids_ok_at(es[k - 1], dissolves(p, BlockPos::Arg((k - 1) as usize)), n)
    }
}

pub open spec fn ids_ok_list(es: Seq<Expr>, n: nat, k: int) -> bool
    decreases es, k,
{
    if k <= 0 || k > es.len() {
        true
    } else {
        ids_ok_list(es, n, k - 1) && ids_ok(es[k - 1], n)
    }
}

proof fn lemma_ids(e: Expr, sid: u32, w: Walk, n: nat)
    requires
        numbered(e, sid, w),
        walk(e, sid, w).scopes.len() <= n,
    ensures
        ids_ok(e, n),
    decreases e, 1int, 0int,
{
    match e {
        Expr::Assign { name, value, .. } => {
            lemma_ids(*value, sid, w.used(sid, name@), n);
        },
        Expr::Send { receiver, selector, args, is_super, .. } => {
            let p = send_positions(selector@, *receiver, args@, is_super);
            let d = dissolves(p, BlockPos::Receiver);
            let w1 = walk_at(*receiver, d, sid, w);
            lemma_walk_args_grows(args@, p, sid, w1, args@.len() as int);
            lemma_ids_at(*receiver, d, sid, w, n);
            lemma_ids_args(args@, p, sid, w1, n, args@.len() as int);
        },
        Expr::Cascade { receiver, segments, .. } => {
            lemma_walk_list_grows(segments@, sid, walk(*receiver, sid, w), segments@.len() as int);
            lemma_ids(*receiver, sid, w, n);
            lemma_ids_list(segments@, sid, walk(*receiver, sid, w), n, segments@.len() as int);
        },
        Expr::DynArray { elems, .. } => {
            lemma_ids_list(elems@, sid, w, n, elems@.len() as int);
        },
        Expr::Return { value, .. } => {
            lemma_ids(*value, sid, w, n);
        },
        Expr::Block(b) => {
            lemma_walk_list_grows(b.body@, w.scopes.len() as u32, w.opened(sid, *b), b.body@.len() as int);
            lemma_ids_list(b.body@, w.scopes.len() as u32, w.opened(sid, *b), n, b.body@.len() as int);
        },
        _ => {},
    }
}

proof fn lemma_ids_at(e: Expr, dissolved: bool, sid: u32, w: Walk, n: nat)
    requires
        numbered_at(e, dissolved, sid, w),
        walk_at(e, dissolved, sid, w).scopes.len() <= n,
    ensures
        ids_ok_at(e, dissolved, n),
    decreases e, 2int, 0int,
{
    if dissolved {
        match e {
            Expr::Block(b) => {
                lemma_ids_list(b.body@, sid, w.absorbed(sid, *b), n, b.body@.len() as int);
            },
            _ => {},
        }
    } else {
        lemma_ids(e, sid, w, n);
    }
}

proof fn lemma_ids_args(es: Seq<Expr>, p: Option<Seq<BlockPos>>, sid: u32, w: Walk, n: nat, k: int)
    requires
        numbered_args(es, p, sid, w, k),
        walk_args(es, p, sid, w, k).scopes.len() <= n,
    ensures
        ids_ok_args(es, p, n, k),
    decreases es, k, 0int,
{
    if 0 < k <= es.len() {
        let d = dissolves(p, BlockPos::Arg((k - 1) as usize));
        lemma_walk_at_grows(es[k - 1], d, sid, walk_args(es, p, sid, w, k - 1));
        lemma_ids_args(es, p, sid, w, n, k - 1);
        lemma_ids_at(es[k - 1], d, sid, walk_args(es, p, sid, w, k - 1), n);
    }
}

proof fn lemma_ids_list(es: Seq<Expr>, sid: u32, w: Walk, n: nat, k: int)
    requires
        numbered_list(es, sid, w, k),
        walk_list(es, sid, w, k).scopes.len() <= n,
    ensures
        ids_ok_list(es, n, k),
    decreases es, k, 0int,
{
    if 0 < k <= es.len() {
        lemma_walk_grows(es[k - 1], sid, walk_list(es, sid, w, k - 1));
        lemma_ids_list(es, sid, w, n, k - 1);
        lemma_ids(es[k - 1], sid, walk_list(es, sid, w, k - 1), n);
    }
}

proof fn lemma_ids_each(es: Seq<Expr>, n: nat, k: int, i: int)
    requires
        ids_ok_list(es, n, k),
        0 <= i < k <= es.len(),
    ensures
        ids_ok(es[i], n),
    decreases k,
{
    if i < k - 1 {
        lemma_ids_each(es, n, k - 1, i);
    }
}

proof fn lemma_ids_each_arg(es: Seq<Expr>, p: Option<Seq<BlockPos>>, n: nat, k: int, i: int)
    requires
        ids_ok_args(es, p, n, k),
        0 <= i < k <= es.len(),
    ensures
        ids_ok_at(es[i], dissolves(p, BlockPos::Arg(i as usize)), n),
    decreases k,
{
    if i < k - 1 {
        lemma_ids_each_arg(es, p, n, k - 1, i);
    }
}

proof fn lemma_placed_each(es: Seq<Expr>, k: int, i: int)
    requires
        placed_list(es, k),
        0 <= i < k <= es.len(),
    ensures
        placed(es[i]),
    decreases k,
{
    if i < k - 1 {
        lemma_placed_each(es, k - 1, i);
    }
}

/// A statement may be a return.
pub open spec fn placed_stmt(e: Expr) -> bool {
    match e {
        Expr::Return { value, .. } => placed(*value),
        _ => placed(e),
    }
}

proof fn lemma_placed_stmt(es: Seq<Expr>, k: int, i: int)
    requires
        placed_body(es, k),
        0 <= i < k <= es.len(),
    ensures
        placed_stmt(es[i]),
    decreases k,
{
    if i < k - 1 {
        lemma_placed_stmt(es, k - 1, i);
    }
}

/// Arguments of a real send are none of them dissolved.
proof fn lemma_real_args(es: Seq<Expr>, n: nat, k: int)
    requires
        ids_ok_args(es, None, n, k),
    ensures
        ids_ok_list(es, n, k),
    decreases k,
{
    if 0 < k <= es.len() {
        lemma_real_args(es, n, k - 1);
        assert(ids_ok_at(es[k - 1], false, n));
    }
}

/// What a dissolving send is made of.
proof fn lemma_shape(sel: Seq<char>, r: Expr, args: Seq<Expr>, c: Control)
    requires
        control_of(sel) == Some(c),
        positions(sel, r, args) is Some,
    ensures
        args.len() == arity(c),
        arity(c) >= 1 && !(c is ToDo) ==> args[0] is Block && dissolves(positions(sel, r, args), BlockPos::Arg(0)),
        arity(c) >= 2 ==> args[1] is Block && dissolves(positions(sel, r, args), BlockPos::Arg(1)),
        c is ToDo ==> args[1]->Block_0.params@.len() == 1 && !dissolves(positions(sel, r, args), BlockPos::Arg(0)),
        dissolves(positions(sel, r, args), BlockPos::Receiver) == (c is WhileTrueDo || c is WhileFalseDo || c is WhileTrue
            || c is WhileFalse || c is Repeat),
        dissolves(positions(sel, r, args), BlockPos::Receiver) ==> r is Block,
{
    let p = positions(sel, r, args)->0;
    if p.len() > 0 {
        assert(p.contains(p[0]));
    }
    if p.len() > 1 {
        assert(p.contains(p[1]));
    }
}

// ── Emission ────────────────────────────────────────────────────────────

spec fn cx_ok(cx: Cx, sid: u32) -> bool {
    cx.capture.ok() && sid < cx.capture.scopes@.len()
}

#[verifier::spinoff_prover]
#[verifier::rlimit(40)]
fn emit_expr(cx: &Cx, in_block: bool, h: &mut Vec<(String, u8)>, b: &mut Builder, sid: u32, e: &Expr) -> (r: Result<
    (),
    CompileError,
>)
    requires
        cx_ok(*cx, sid),
        placed(*e),
        ids_ok(*e, cx.capture.scopes@.len()),
    ensures
        done(r, *old(b), *final(b), expr(*cx, in_block, vars_view(old(h)@), sid, *e, out(*old(b)))),
        r is Ok ==> final(h)@ == old(h)@,
    decreases *e, 3int, 0int,
{
    match e {
        Expr::SelfRef(_) => {
            b.put(Instr::PushSelf);
            Ok(())
        },
        Expr::CascadeRcvr(_) => Ok(()),
        Expr::Var { name, span } => emit_load(cx, h, b, sid, name.as_str(), *span),
        Expr::Lit { value, .. } => {
            b.literal(value);
            Ok(())
        },
        Expr::Assign { name, value, span } => {
            match emit_expr(cx, in_block, h, b, sid, value) {
                Ok(_) => {},
                Err(x) => {
                    return Err(x);
                },
            }
            b.put(Instr::Dup);
            emit_store(cx, h, b, sid, name.as_str(), *span)
        },
        Expr::Send { receiver, selector, args, is_super, .. } => {
            if !*is_super {
                let p: Option<Vec<BlockPos>> = inline_block_positions(selector.as_str(), receiver, args);
                if p.is_some() {
                    return emit_inlined(cx, in_block, h, b, sid, e);
                }
            }
            proof {
                assert(ids_ok_at(**receiver, false, cx.capture.scopes@.len()));
                lemma_real_args(args@, cx.capture.scopes@.len(), args@.len() as int);
            }
            match emit_expr(cx, in_block, h, b, sid, receiver) {
                Ok(_) => {},
                Err(x) => {
                    proof {
                        lemma_exprs_stuck(*cx, in_block, vars_view(old(h)@), sid, args@, args@.len() as int, expr(
                            *cx,
                            in_block,
                            vars_view(old(h)@),
                            sid,
                            **receiver,
                            out(*old(b)),
                        ));
                    }
                    return Err(x);
                },
            }
            match emit_exprs(cx, in_block, h, b, sid, args) {
                Ok(_) => {},
                Err(x) => {
                    return Err(x);
                },
            }
            b.send(selector.as_str(), args.len() as u8, *is_super);
            Ok(())
        },
        Expr::Cascade { receiver, segments, .. } => {
            match emit_expr(cx, in_block, h, b, sid, receiver) {
                Ok(_) => {},
                Err(x) => {
                    proof {
                        lemma_cascade_stuck(*cx, in_block, vars_view(old(h)@), sid, segments@, segments@.len() as int, expr(
                            *cx,
                            in_block,
                            vars_view(old(h)@),
                            sid,
                            **receiver,
                            out(*old(b)),
                        ));
                    }
                    return Err(x);
                },
            }
            emit_cascade(cx, in_block, h, b, sid, segments)
        },
        Expr::DynArray { elems, .. } => {
            b.push_entry(Entry::ArrayClass);
            b.number(elems.len() as i64);
            b.send("new:", 1, false);
            emit_elements(cx, in_block, h, b, sid, elems)
        },
        Expr::Block(blk) => emit_block_literal(cx, b, blk),
        Expr::Return { .. } => Ok(()),
    }
}

// Once failed, nothing is added.

proof fn lemma_expr_stuck(cx: Cx, in_block: bool, h: Seq<(Seq<char>, u8)>, sid: u32, e: Expr, o: Out)
    requires
        o.err is Some,
    ensures
        expr(cx, in_block, h, sid, e, o) == o,
{
}

proof fn lemma_stmt_stuck(cx: Cx, in_block: bool, h: Seq<(Seq<char>, u8)>, sid: u32, e: Expr, o: Out)
    requires
        o.err is Some,
    ensures
        discard(cx, in_block, h, sid, e, o) == o,
        value_of(cx, in_block, h, sid, e, o) == o,
{
    lemma_expr_stuck(cx, in_block, h, sid, e, o);
    match e {
        Expr::Return { value, .. } => {
            lemma_expr_stuck(cx, in_block, h, sid, *value, o);
        },
        Expr::Assign { value, .. } => {
            lemma_expr_stuck(cx, in_block, h, sid, *value, o);
        },
        _ => {},
    }
}

/// A list keeps the failure of an earlier element.
proof fn lemma_exprs_err(cx: Cx, in_block: bool, h: Seq<(Seq<char>, u8)>, sid: u32, es: Seq<Expr>, i: int, k: int, o: Out)
    requires
        0 <= i <= k <= es.len(),
        exprs(cx, in_block, h, sid, es, i, o).err is Some,
    ensures
        exprs(cx, in_block, h, sid, es, k, o) == exprs(cx, in_block, h, sid, es, i, o),
    decreases k - i,
{
    if i < k {
        lemma_exprs_err(cx, in_block, h, sid, es, i, k - 1, o);
        lemma_expr_stuck(cx, in_block, h, sid, es[k - 1], exprs(cx, in_block, h, sid, es, k - 1, o));
    }
}

/// A list keeps the failure of an earlier element.
proof fn lemma_cascade_err(cx: Cx, in_block: bool, h: Seq<(Seq<char>, u8)>, sid: u32, es: Seq<Expr>, i: int, k: int, o: Out)
    requires
        0 <= i <= k <= es.len(),
        cascade(cx, in_block, h, sid, es, i, o).err is Some,
    ensures
        cascade(cx, in_block, h, sid, es, k, o) == cascade(cx, in_block, h, sid, es, i, o),
    decreases k - i,
{
    if i < k {
        lemma_cascade_err(cx, in_block, h, sid, es, i, k - 1, o);
        lemma_expr_stuck(cx, in_block, h, sid, es[k - 1], cascade(cx, in_block, h, sid, es, k - 1, o));
    }
}

/// A list keeps the failure of an earlier element.
proof fn lemma_elements_err(cx: Cx, in_block: bool, h: Seq<(Seq<char>, u8)>, sid: u32, es: Seq<Expr>, i: int, k: int, o: Out)
    requires
        0 <= i <= k <= es.len(),
        elements(cx, in_block, h, sid, es, i, o).err is Some,
    ensures
        elements(cx, in_block, h, sid, es, k, o) == elements(cx, in_block, h, sid, es, i, o),
    decreases k - i,
{
    if i < k {
        lemma_elements_err(cx, in_block, h, sid, es, i, k - 1, o);
        lemma_expr_stuck(cx, in_block, h, sid, es[k - 1], elements(cx, in_block, h, sid, es, k - 1, o));
    }
}

/// A list keeps the failure of an earlier element.
proof fn lemma_discards_err(cx: Cx, in_block: bool, h: Seq<(Seq<char>, u8)>, sid: u32, es: Seq<Expr>, i: int, k: int, o: Out)
    requires
        0 <= i <= k <= es.len(),
        discards(cx, in_block, h, sid, es, i, o).err is Some,
    ensures
        discards(cx, in_block, h, sid, es, k, o) == discards(cx, in_block, h, sid, es, i, o),
    decreases k - i,
{
    if i < k {
        lemma_discards_err(cx, in_block, h, sid, es, i, k - 1, o);
        lemma_stmt_stuck(cx, in_block, h, sid, es[k - 1], discards(cx, in_block, h, sid, es, k - 1, o));
    }
}

proof fn lemma_exprs_stuck(cx: Cx, in_block: bool, h: Seq<(Seq<char>, u8)>, sid: u32, es: Seq<Expr>, k: int, o: Out)
    requires
        o.err is Some,
    ensures
        exprs(cx, in_block, h, sid, es, k, o) == o,
{
    if 0 < k <= es.len() {
        lemma_exprs_err(cx, in_block, h, sid, es, 0, k, o);
    }
}

proof fn lemma_cascade_stuck(cx: Cx, in_block: bool, h: Seq<(Seq<char>, u8)>, sid: u32, es: Seq<Expr>, k: int, o: Out)
    requires
        o.err is Some,
    ensures
        cascade(cx, in_block, h, sid, es, k, o) == o,
{
    if 0 < k <= es.len() {
        lemma_cascade_err(cx, in_block, h, sid, es, 0, k, o);
    }
}

proof fn lemma_discards_stuck(cx: Cx, in_block: bool, h: Seq<(Seq<char>, u8)>, sid: u32, es: Seq<Expr>, k: int, o: Out)
    requires
        o.err is Some,
    ensures
        discards(cx, in_block, h, sid, es, k, o) == o,
{
    if 0 < k <= es.len() {
        lemma_discards_err(cx, in_block, h, sid, es, 0, k, o);
    }
}

proof fn lemma_values_stuck(cx: Cx, in_block: bool, h: Seq<(Seq<char>, u8)>, sid: u32, es: Seq<Expr>, o: Out)
    requires
        o.err is Some,
    ensures
        values(cx, in_block, h, sid, es, o) == o,
{
    let n = es.len() as int;
    if n > 0 {
        lemma_discards_stuck(cx, in_block, h, sid, es, n - 1, o);
        lemma_stmt_stuck(cx, in_block, h, sid, es[n - 1], o);
        match es[n - 1] {
            Expr::Return { value, .. } => {
                lemma_expr_stuck(cx, in_block, h, sid, *value, o);
            },
            _ => {},
        }
    }
}

proof fn lemma_dissolved_stuck(cx: Cx, in_block: bool, h: Seq<(Seq<char>, u8)>, sid: u32, e: Expr, o: Out)
    requires
        o.err is Some,
    ensures
        dissolved(cx, in_block, h, sid, e, o) == o,
{
    match e {
        Expr::Block(b) => {
            lemma_values_stuck(cx, in_block, inside(h, *b, o), sid, b.body@, o);
        },
        _ => {},
    }
}

proof fn lemma_arm_stuck(cx: Cx, in_block: bool, h: Seq<(Seq<char>, u8)>, sid: u32, e: Expr, o: Out)
    requires
        o.err is Some,
    ensures
        not_nil_arm(cx, in_block, h, sid, e, o) == o,
{
    match e {
        Expr::Block(b) => {
            lemma_values_stuck(cx, in_block, inside(h, *b, o), sid, b.body@, o);
            lemma_dissolved_stuck(cx, in_block, h, sid, e, o);
        },
        _ => {},
    }
}

#[verifier::spinoff_prover]
fn emit_exprs(cx: &Cx, in_block: bool, h: &mut Vec<(String, u8)>, b: &mut Builder, sid: u32, es: &Vec<Expr>) -> (r: Result<
    (),
    CompileError,
>)
    requires
        cx_ok(*cx, sid),
        placed_list(es@, es@.len() as int),
        ids_ok_list(es@, cx.capture.scopes@.len(), es@.len() as int),
    ensures
        done(
            r,
            *old(b),
            *final(b),
            exprs(*cx, in_block, vars_view(old(h)@), sid, es@, es@.len() as int, out(*old(b))),
        ),
        r is Ok ==> final(h)@ == old(h)@,
    decreases es@, es@.len(), 0int,
{
    let ghost hv = vars_view(h@);
    let mut i: usize = 0;
    while i < es.len()
        invariant
            i <= es@.len(),
            cx_ok(*cx, sid),
            placed_list(es@, es@.len() as int),
            ids_ok_list(es@, cx.capture.scopes@.len(), es@.len() as int),
            hv == vars_view(old(h)@),
            h@ == old(h)@,
            exprs(*cx, in_block, hv, sid, es@, i as int, out(*old(b))).err is None,
            out(*b) == exprs(*cx, in_block, hv, sid, es@, i as int, out(*old(b))),
            b.code@.len() >= old(b).code@.len(),
            b.next >= old(b).next,
        decreases es@.len() - i,
    {
        proof {
            assert(decreases_to!(es@ => es@[i as int]));
            lemma_placed_each(es@, es@.len() as int, i as int);
            lemma_ids_each(es@, cx.capture.scopes@.len(), es@.len() as int, i as int);
        }
        match emit_expr(cx, in_block, h, b, sid, &es[i]) {
            Ok(_) => {},
            Err(x) => {
                proof {
                    lemma_exprs_err(*cx, in_block, hv, sid, es@, i + 1, es@.len() as int, out(*old(b)));
                }
                return Err(x);
            },
        }
        i += 1;
    }
    Ok(())
}

#[verifier::spinoff_prover]
fn emit_cascade(cx: &Cx, in_block: bool, h: &mut Vec<(String, u8)>, b: &mut Builder, sid: u32, es: &Vec<Expr>) -> (r: Result<
    (),
    CompileError,
>)
    requires
        cx_ok(*cx, sid),
        placed_list(es@, es@.len() as int),
        ids_ok_list(es@, cx.capture.scopes@.len(), es@.len() as int),
    ensures
        done(
            r,
            *old(b),
            *final(b),
            cascade(*cx, in_block, vars_view(old(h)@), sid, es@, es@.len() as int, out(*old(b))),
        ),
        r is Ok ==> final(h)@ == old(h)@,
    decreases es@, es@.len(), 0int,
{
    let ghost hv = vars_view(h@);
    let mut i: usize = 0;
    while i < es.len()
        invariant
            i <= es@.len(),
            cx_ok(*cx, sid),
            placed_list(es@, es@.len() as int),
            ids_ok_list(es@, cx.capture.scopes@.len(), es@.len() as int),
            hv == vars_view(old(h)@),
            h@ == old(h)@,
            cascade(*cx, in_block, hv, sid, es@, i as int, out(*old(b))).err is None,
            out(*b) == cascade(*cx, in_block, hv, sid, es@, i as int, out(*old(b))),
            b.code@.len() >= old(b).code@.len(),
            b.next >= old(b).next,
        decreases es@.len() - i,
    {
        proof {
            assert(decreases_to!(es@ => es@[i as int]));
            lemma_placed_each(es@, es@.len() as int, i as int);
            lemma_ids_each(es@, cx.capture.scopes@.len(), es@.len() as int, i as int);
        }
        let last: bool = i + 1 == es.len();
        if !last {
            b.put(Instr::Dup);
        }
        match emit_expr(cx, in_block, h, b, sid, &es[i]) {
            Ok(_) => {},
            Err(x) => {
                proof {
                    lemma_cascade_err(*cx, in_block, hv, sid, es@, i + 1, es@.len() as int, out(*old(b)));
                }
                return Err(x);
            },
        }
        if !last {
            b.put(Instr::Pop);
        }
        i += 1;
    }
    Ok(())
}

#[verifier::spinoff_prover]
fn emit_elements(cx: &Cx, in_block: bool, h: &mut Vec<(String, u8)>, b: &mut Builder, sid: u32, es: &Vec<Expr>) -> (r: Result<
    (),
    CompileError,
>)
    requires
        cx_ok(*cx, sid),
        placed_list(es@, es@.len() as int),
        ids_ok_list(es@, cx.capture.scopes@.len(), es@.len() as int),
    ensures
        done(
            r,
            *old(b),
            *final(b),
            elements(*cx, in_block, vars_view(old(h)@), sid, es@, es@.len() as int, out(*old(b))),
        ),
        r is Ok ==> final(h)@ == old(h)@,
    decreases es@, es@.len(), 0int,
{
    let ghost hv = vars_view(h@);
    let mut i: usize = 0;
    while i < es.len()
        invariant
            i <= es@.len(),
            cx_ok(*cx, sid),
            placed_list(es@, es@.len() as int),
            ids_ok_list(es@, cx.capture.scopes@.len(), es@.len() as int),
            hv == vars_view(old(h)@),
            h@ == old(h)@,
            elements(*cx, in_block, hv, sid, es@, i as int, out(*old(b))).err is None,
            out(*b) == elements(*cx, in_block, hv, sid, es@, i as int, out(*old(b))),
            b.code@.len() >= old(b).code@.len(),
            b.next >= old(b).next,
        decreases es@.len() - i,
    {
        proof {
            assert(decreases_to!(es@ => es@[i as int]));
            lemma_placed_each(es@, es@.len() as int, i as int);
            lemma_ids_each(es@, cx.capture.scopes@.len(), es@.len() as int, i as int);
        }
        b.put(Instr::Dup);
        b.number((i + 1) as i64);
        match emit_expr(cx, in_block, h, b, sid, &es[i]) {
            Ok(_) => {},
            Err(x) => {
                proof {
                    lemma_elements_err(*cx, in_block, hv, sid, es@, i + 1, es@.len() as int, out(*old(b)));
                }
                return Err(x);
            },
        }
        b.send("at:put:", 2, false);
        b.put(Instr::Pop);
        i += 1;
    }
    Ok(())
}

/// A send that is dissolved.
spec fn inlines(e: Expr) -> bool {
    match e {
        Expr::Send { receiver, selector, args, is_super, .. } => !is_super && positions(
            selector@,
            *receiver,
            args@,
        ) is Some,
        _ => false,
    }
}

spec fn inlines_as(e: Expr, c: Control) -> bool {
    match e {
        Expr::Send { selector, .. } => control_of(selector@) == Some(c),
        _ => false,
    }
}

/// The parts of a send, as far as its shape does not matter.
proof fn lemma_parts(e: Expr, n: nat)
    requires
        placed(e),
        ids_ok(e, n),
        e matches Expr::Send { is_super, .. } && !is_super,
    ensures
        e matches Expr::Send { receiver, selector, args, .. } && {
            let p = positions(selector@, *receiver, args@);
            &&& placed(*receiver)
            &&& ids_ok_at(*receiver, dissolves(p, BlockPos::Receiver), n)
            &&& args@.len() >= 1 ==> placed(args@[0]) && ids_ok_at(args@[0], dissolves(p, BlockPos::Arg(0)), n)
            &&& args@.len() >= 2 ==> placed(args@[1]) && ids_ok_at(args@[1], dissolves(p, BlockPos::Arg(1)), n)
        },
{
    match e {
        Expr::Send { receiver, selector, args, .. } => {
            let p = positions(selector@, *receiver, args@);
            if args@.len() >= 1 {
                lemma_placed_each(args@, args@.len() as int, 0);
                lemma_ids_each_arg(args@, p, n, args@.len() as int, 0);
            }
            if args@.len() >= 2 {
                lemma_placed_each(args@, args@.len() as int, 1);
                lemma_ids_each_arg(args@, p, n, args@.len() as int, 1);
            }
        },
        _ => {},
    }
}

/// Emits a control-flow send that is dissolved.
#[verifier::spinoff_prover]
fn emit_inlined(cx: &Cx, in_block: bool, h: &mut Vec<(String, u8)>, b: &mut Builder, sid: u32, e: &Expr) -> (r: Result<
    (),
    CompileError,
>)
    requires
        cx_ok(*cx, sid),
        inlines(*e),
        placed(*e),
        ids_ok(*e, cx.capture.scopes@.len()),
    ensures
        done(r, *old(b), *final(b), inlined(*cx, in_block, vars_view(old(h)@), sid, *e, out(*old(b)))),
        r is Ok ==> final(h)@ == old(h)@,
    decreases *e, 2int, 1int,
{
    match e {
        Expr::Send { selector, .. } => match control(selector.as_str()) {
            Some(c) => match c {
                Control::IfTrue | Control::IfFalse | Control::And | Control::Or => emit_conditional(
                    cx,
                    in_block,
                    h,
                    b,
                    sid,
                    e,
                    c,
                ),
                Control::IfTrueIfFalse | Control::IfFalseIfTrue => emit_if_else(cx, in_block, h, b, sid, e, c),
                Control::WhileTrueDo | Control::WhileFalseDo => emit_while_do(cx, in_block, h, b, sid, e, c),
                Control::WhileTrue | Control::WhileFalse => emit_while(cx, in_block, h, b, sid, e, c),
                Control::TimesRepeat => emit_times_repeat(cx, in_block, h, b, sid, e, c),
                Control::IfNil => emit_if_nil(cx, in_block, h, b, sid, e, c),
                Control::IfNotNil => emit_if_not_nil(cx, in_block, h, b, sid, e, c),
                Control::IfNilIfNotNil => emit_nil_else(cx, in_block, h, b, sid, e, c),
                Control::IfNotNilIfNil => emit_not_nil_else(cx, in_block, h, b, sid, e, c),
                Control::Repeat => emit_repeat(cx, in_block, h, b, sid, e, c),
                Control::ToDo => emit_to_do(cx, in_block, h, b, sid, e, c),
            },
            None => Ok(()),
        },
        _ => Ok(()),
    }
}

/// A branch around one block; the other way yields a constant.
#[verifier::spinoff_prover]
#[verifier::rlimit(40)]
fn emit_conditional(cx: &Cx, in_block: bool, h: &mut Vec<(String, u8)>, b: &mut Builder, sid: u32, e: &Expr, c: Control) -> (r: Result<(), CompileError>)
    requires
        cx_ok(*cx, sid),
        inlines(*e),
        inlines_as(*e, c),
        c is IfTrue || c is IfFalse || c is And || c is Or,
        placed(*e),
        ids_ok(*e, cx.capture.scopes@.len()),
    ensures
        done(r, *old(b), *final(b), inlined(*cx, in_block, vars_view(old(h)@), sid, *e, out(*old(b)))),
        r is Ok ==> final(h)@ == old(h)@,
    decreases *e, 2int, 0int,
{
    let ghost hv = vars_view(h@);
    match e {
        Expr::Send { receiver, selector, args, .. } => {
            proof {
                lemma_shape(selector@, **receiver, args@, c);
                lemma_parts(*e, cx.capture.scopes@.len());
            }
            let over: bool = match c {
                Control::IfFalse | Control::Or => true,
                _ => false,
            };
            let ghost before = out(*b);
            match emit_expr(cx, in_block, h, b, sid, receiver) {
                Ok(_) => {},
                Err(x) => {
                    proof {
                        let failed = expr(*cx, in_block, hv, sid, **receiver, before);
                        lemma_dissolved_stuck(*cx, in_block, hv, sid, args@[0], failed);
                    }
                    return Err(x);
                },
            }
            let at: usize = b.here();
            b.put(branch_to(over, 0));
            match emit_dissolved_body(cx, in_block, h, b, sid, &args[0]) {
                Ok(_) => {},
                Err(x) => {
                    return Err(x);
                },
            }
            let jump: usize = b.here();
            b.put(Instr::JumpFwd(0));
            let other: usize = b.here();
            b.fix(at, branch_to(over, other));
            match c {
                Control::And => b.put(Instr::PushFalse),
                Control::Or => b.put(Instr::PushTrue),
                _ => b.put(Instr::PushNil),
            }
            let end: usize = b.here();
            b.fix(jump, Instr::JumpFwd(end));
            Ok(())
        },
        _ => Ok(()),
    }
}

/// One of two blocks.
#[verifier::spinoff_prover]
#[verifier::rlimit(40)]
fn emit_if_else(cx: &Cx, in_block: bool, h: &mut Vec<(String, u8)>, b: &mut Builder, sid: u32, e: &Expr, c: Control) -> (r: Result<(), CompileError>)
    requires
        cx_ok(*cx, sid),
        inlines(*e),
        inlines_as(*e, c),
        c is IfTrueIfFalse || c is IfFalseIfTrue,
        placed(*e),
        ids_ok(*e, cx.capture.scopes@.len()),
    ensures
        done(r, *old(b), *final(b), inlined(*cx, in_block, vars_view(old(h)@), sid, *e, out(*old(b)))),
        r is Ok ==> final(h)@ == old(h)@,
    decreases *e, 2int, 0int,
{
    let ghost hv = vars_view(h@);
    match e {
        Expr::Send { receiver, selector, args, .. } => {
            proof {
                lemma_shape(selector@, **receiver, args@, c);
                lemma_parts(*e, cx.capture.scopes@.len());
            }
            let (t, f): (&Expr, &Expr) = match c {
                Control::IfTrueIfFalse => (&args[0], &args[1]),
                _ => (&args[1], &args[0]),
            };
            let ghost before = out(*b);
            match emit_expr(cx, in_block, h, b, sid, receiver) {
                Ok(_) => {},
                Err(x) => {
                    proof {
                        let failed = expr(*cx, in_block, hv, sid, **receiver, before);
                        lemma_dissolved_stuck(*cx, in_block, hv, sid, *t, failed);
                        lemma_dissolved_stuck(*cx, in_block, hv, sid, *f, failed);
                    }
                    return Err(x);
                },
            }
            let at: usize = b.here();
            b.put(branch_to(false, 0));
            let ghost before = out(*b);
            match emit_dissolved_body(cx, in_block, h, b, sid, t) {
                Ok(_) => {},
                Err(x) => {
                    proof {
                        let failed = dissolved(*cx, in_block, hv, sid, *t, before);
                        lemma_dissolved_stuck(*cx, in_block, hv, sid, *f, failed);
                    }
                    return Err(x);
                },
            }
            let jump: usize = b.here();
            b.put(Instr::JumpFwd(0));
            let other: usize = b.here();
            b.fix(at, branch_to(false, other));
            match emit_dissolved_body(cx, in_block, h, b, sid, f) {
                Ok(_) => {},
                Err(x) => {
                    return Err(x);
                },
            }
            let end: usize = b.here();
            b.fix(jump, Instr::JumpFwd(end));
            Ok(())
        },
        _ => Ok(()),
    }
}

/// A loop with its test at the head.
#[verifier::spinoff_prover]
#[verifier::rlimit(40)]
fn emit_while_do(cx: &Cx, in_block: bool, h: &mut Vec<(String, u8)>, b: &mut Builder, sid: u32, e: &Expr, c: Control) -> (r: Result<(), CompileError>)
    requires
        cx_ok(*cx, sid),
        inlines(*e),
        inlines_as(*e, c),
        c is WhileTrueDo || c is WhileFalseDo,
        placed(*e),
        ids_ok(*e, cx.capture.scopes@.len()),
    ensures
        done(r, *old(b), *final(b), inlined(*cx, in_block, vars_view(old(h)@), sid, *e, out(*old(b)))),
        r is Ok ==> final(h)@ == old(h)@,
    decreases *e, 2int, 0int,
{
    let ghost hv = vars_view(h@);
    match e {
        Expr::Send { receiver, selector, args, .. } => {
            proof {
                lemma_shape(selector@, **receiver, args@, c);
                lemma_parts(*e, cx.capture.scopes@.len());
            }
            let over: bool = match c {
                Control::WhileFalseDo => true,
                _ => false,
            };
            let start: usize = b.here();
            let ghost before = out(*b);
            match emit_dissolved_body(cx, in_block, h, b, sid, receiver) {
                Ok(_) => {},
                Err(x) => {
                    proof {
                        let failed = dissolved(*cx, in_block, hv, sid, **receiver, before);
                        lemma_dissolved_stuck(*cx, in_block, hv, sid, args@[0], failed);
                    }
                    return Err(x);
                },
            }
            let at: usize = b.here();
            b.put(branch_to(over, 0));
            match emit_dissolved_body(cx, in_block, h, b, sid, &args[0]) {
                Ok(_) => {},
                Err(x) => {
                    return Err(x);
                },
            }
            b.put(Instr::Pop);
            b.put(Instr::JumpBack(start));
            let end: usize = b.here();
            b.fix(at, branch_to(over, end));
            b.put(Instr::PushNil);
            Ok(())
        },
        _ => Ok(()),
    }
}

/// A loop that is its test.
#[verifier::spinoff_prover]
#[verifier::rlimit(40)]
fn emit_while(cx: &Cx, in_block: bool, h: &mut Vec<(String, u8)>, b: &mut Builder, sid: u32, e: &Expr, c: Control) -> (r: Result<(), CompileError>)
    requires
        cx_ok(*cx, sid),
        inlines(*e),
        inlines_as(*e, c),
        c is WhileTrue || c is WhileFalse,
        placed(*e),
        ids_ok(*e, cx.capture.scopes@.len()),
    ensures
        done(r, *old(b), *final(b), inlined(*cx, in_block, vars_view(old(h)@), sid, *e, out(*old(b)))),
        r is Ok ==> final(h)@ == old(h)@,
    decreases *e, 2int, 0int,
{
    match e {
        Expr::Send { receiver, selector, args, .. } => {
            proof {
                lemma_shape(selector@, **receiver, args@, c);
                lemma_parts(*e, cx.capture.scopes@.len());
            }
            let over: bool = match c {
                Control::WhileFalse => true,
                _ => false,
            };
            let start: usize = b.here();
            match emit_dissolved_body(cx, in_block, h, b, sid, receiver) {
                Ok(_) => {},
                Err(x) => {
                    return Err(x);
                },
            }
            let at: usize = b.here();
            b.put(branch_to(over, 0));
            b.put(Instr::JumpBack(start));
            let end: usize = b.here();
            b.fix(at, branch_to(over, end));
            b.put(Instr::PushNil);
            Ok(())
        },
        _ => Ok(()),
    }
}

/// A counted loop over a block without parameters.
#[verifier::spinoff_prover]
#[verifier::rlimit(40)]
fn emit_times_repeat(cx: &Cx, in_block: bool, h: &mut Vec<(String, u8)>, b: &mut Builder, sid: u32, e: &Expr, c: Control) -> (r: Result<(), CompileError>)
    requires
        cx_ok(*cx, sid),
        inlines(*e),
        inlines_as(*e, c),
        c is TimesRepeat,
        placed(*e),
        ids_ok(*e, cx.capture.scopes@.len()),
    ensures
        done(r, *old(b), *final(b), inlined(*cx, in_block, vars_view(old(h)@), sid, *e, out(*old(b)))),
        r is Ok ==> final(h)@ == old(h)@,
    decreases *e, 2int, 0int,
{
    let ghost hv = vars_view(h@);
    match e {
        Expr::Send { receiver, selector, args, .. } => {
            proof {
                lemma_shape(selector@, **receiver, args@, c);
                lemma_parts(*e, cx.capture.scopes@.len());
            }
            let ghost before = out(*b);
            match emit_expr(cx, in_block, h, b, sid, receiver) {
                Ok(_) => {},
                Err(x) => {
                    proof {
                        let failed = expr(*cx, in_block, hv, sid, **receiver, before);
                        lemma_values_stuck(*cx, in_block, hv, sid, args@[0]->Block_0.body@, failed);
                    }
                    return Err(x);
                },
            }
            b.put(Instr::Dup);
            let limit: u8 = b.took();
            b.put(Instr::StoreTempPop(limit));
            let i: u8 = b.took();
            b.put(Instr::PushSmi(1));
            b.put(Instr::StoreTempPop(i));
            let test: usize = b.here();
            b.loop_test(i, limit);
            let at: usize = b.here();
            b.put(branch_to(false, 0));
            match &args[0] {
                Expr::Block(blk) => match emit_statement_seq(cx, in_block, h, b, sid, &blk.body) {
                    Ok(_) => {},
                    Err(x) => {
                        return Err(x);
                    },
                },
                _ => {},
            }
            b.put(Instr::Pop);
            b.loop_step(i, test);
            let end: usize = b.here();
            b.fix(at, branch_to(false, end));
            Ok(())
        },
        _ => Ok(()),
    }
}

/// A block in place of nil.
#[verifier::spinoff_prover]
#[verifier::rlimit(40)]
fn emit_if_nil(cx: &Cx, in_block: bool, h: &mut Vec<(String, u8)>, b: &mut Builder, sid: u32, e: &Expr, c: Control) -> (r: Result<(), CompileError>)
    requires
        cx_ok(*cx, sid),
        inlines(*e),
        inlines_as(*e, c),
        c is IfNil,
        placed(*e),
        ids_ok(*e, cx.capture.scopes@.len()),
    ensures
        done(r, *old(b), *final(b), inlined(*cx, in_block, vars_view(old(h)@), sid, *e, out(*old(b)))),
        r is Ok ==> final(h)@ == old(h)@,
    decreases *e, 2int, 0int,
{
    let ghost hv = vars_view(h@);
    match e {
        Expr::Send { receiver, selector, args, .. } => {
            proof {
                lemma_shape(selector@, **receiver, args@, c);
                lemma_parts(*e, cx.capture.scopes@.len());
            }
            let ghost before = out(*b);
            match emit_expr(cx, in_block, h, b, sid, receiver) {
                Ok(_) => {},
                Err(x) => {
                    proof {
                        let failed = expr(*cx, in_block, hv, sid, **receiver, before);
                        lemma_dissolved_stuck(*cx, in_block, hv, sid, args@[0], failed);
                    }
                    return Err(x);
                },
            }
            b.nil_test();
            let at: usize = b.here();
            b.put(branch_to(false, 0));
            b.put(Instr::Pop);
            match emit_dissolved_body(cx, in_block, h, b, sid, &args[0]) {
                Ok(_) => {},
                Err(x) => {
                    return Err(x);
                },
            }
            let jump: usize = b.here();
            b.put(Instr::JumpFwd(0));
            let end: usize = b.here();
            b.fix(at, branch_to(false, end));
            b.fix(jump, Instr::JumpFwd(end));
            Ok(())
        },
        _ => Ok(()),
    }
}

/// A block for a value other than nil.
#[verifier::spinoff_prover]
#[verifier::rlimit(40)]
fn emit_if_not_nil(cx: &Cx, in_block: bool, h: &mut Vec<(String, u8)>, b: &mut Builder, sid: u32, e: &Expr, c: Control) -> (r: Result<(), CompileError>)
    requires
        cx_ok(*cx, sid),
        inlines(*e),
        inlines_as(*e, c),
        c is IfNotNil,
        placed(*e),
        ids_ok(*e, cx.capture.scopes@.len()),
    ensures
        done(r, *old(b), *final(b), inlined(*cx, in_block, vars_view(old(h)@), sid, *e, out(*old(b)))),
        r is Ok ==> final(h)@ == old(h)@,
    decreases *e, 2int, 0int,
{
    let ghost hv = vars_view(h@);
    match e {
        Expr::Send { receiver, selector, args, .. } => {
            proof {
                lemma_shape(selector@, **receiver, args@, c);
                lemma_parts(*e, cx.capture.scopes@.len());
            }
            let ghost before = out(*b);
            match emit_expr(cx, in_block, h, b, sid, receiver) {
                Ok(_) => {},
                Err(x) => {
                    proof {
                        let failed = expr(*cx, in_block, hv, sid, **receiver, before);
                        lemma_arm_stuck(*cx, in_block, hv, sid, args@[0], failed);
                    }
                    return Err(x);
                },
            }
            b.nil_test();
            let at: usize = b.here();
            b.put(branch_to(true, 0));
            match emit_ifnotnil_arm(cx, in_block, h, b, sid, &args[0]) {
                Ok(_) => {},
                Err(x) => {
                    return Err(x);
                },
            }
            let jump: usize = b.here();
            b.put(Instr::JumpFwd(0));
            let end: usize = b.here();
            b.fix(at, branch_to(true, end));
            b.fix(jump, Instr::JumpFwd(end));
            Ok(())
        },
        _ => Ok(()),
    }
}

/// One of two blocks, that for nil first.
#[verifier::spinoff_prover]
#[verifier::rlimit(40)]
fn emit_nil_else(cx: &Cx, in_block: bool, h: &mut Vec<(String, u8)>, b: &mut Builder, sid: u32, e: &Expr, c: Control) -> (r: Result<(), CompileError>)
    requires
        cx_ok(*cx, sid),
        inlines(*e),
        inlines_as(*e, c),
        c is IfNilIfNotNil,
        placed(*e),
        ids_ok(*e, cx.capture.scopes@.len()),
    ensures
        done(r, *old(b), *final(b), inlined(*cx, in_block, vars_view(old(h)@), sid, *e, out(*old(b)))),
        r is Ok ==> final(h)@ == old(h)@,
    decreases *e, 2int, 0int,
{
    let ghost hv = vars_view(h@);
    match e {
        Expr::Send { receiver, selector, args, .. } => {
            proof {
                lemma_shape(selector@, **receiver, args@, c);
                lemma_parts(*e, cx.capture.scopes@.len());
            }
            let ghost before = out(*b);
            match emit_expr(cx, in_block, h, b, sid, receiver) {
                Ok(_) => {},
                Err(x) => {
                    proof {
                        let failed = expr(*cx, in_block, hv, sid, **receiver, before);
                        lemma_dissolved_stuck(*cx, in_block, hv, sid, args@[0], failed);
                        lemma_arm_stuck(*cx, in_block, hv, sid, args@[1], failed);
                    }
                    return Err(x);
                },
            }
            b.nil_test();
            let at: usize = b.here();
            b.put(branch_to(false, 0));
            b.put(Instr::Pop);
            let ghost before = out(*b);
            match emit_dissolved_body(cx, in_block, h, b, sid, &args[0]) {
                Ok(_) => {},
                Err(x) => {
                    proof {
                        let failed = dissolved(*cx, in_block, hv, sid, args@[0], before);
                        lemma_arm_stuck(*cx, in_block, hv, sid, args@[1], failed);
                    }
                    return Err(x);
                },
            }
            let jump: usize = b.here();
            b.put(Instr::JumpFwd(0));
            let other: usize = b.here();
            b.fix(at, branch_to(false, other));
            match emit_ifnotnil_arm(cx, in_block, h, b, sid, &args[1]) {
                Ok(_) => {},
                Err(x) => {
                    return Err(x);
                },
            }
            let end: usize = b.here();
            b.fix(jump, Instr::JumpFwd(end));
            Ok(())
        },
        _ => Ok(()),
    }
}

/// One of two blocks, that for nil second.
#[verifier::spinoff_prover]
#[verifier::rlimit(40)]
fn emit_not_nil_else(cx: &Cx, in_block: bool, h: &mut Vec<(String, u8)>, b: &mut Builder, sid: u32, e: &Expr, c: Control) -> (r: Result<(), CompileError>)
    requires
        cx_ok(*cx, sid),
        inlines(*e),
        inlines_as(*e, c),
        c is IfNotNilIfNil,
        placed(*e),
        ids_ok(*e, cx.capture.scopes@.len()),
    ensures
        done(r, *old(b), *final(b), inlined(*cx, in_block, vars_view(old(h)@), sid, *e, out(*old(b)))),
        r is Ok ==> final(h)@ == old(h)@,
    decreases *e, 2int, 0int,
{
    let ghost hv = vars_view(h@);
    match e {
        Expr::Send { receiver, selector, args, .. } => {
            proof {
                lemma_shape(selector@, **receiver, args@, c);
                lemma_parts(*e, cx.capture.scopes@.len());
            }
            let ghost before = out(*b);
            match emit_expr(cx, in_block, h, b, sid, receiver) {
                Ok(_) => {},
                Err(x) => {
                    proof {
                        let failed = expr(*cx, in_block, hv, sid, **receiver, before);
                        lemma_arm_stuck(*cx, in_block, hv, sid, args@[0], failed);
                        lemma_dissolved_stuck(*cx, in_block, hv, sid, args@[1], failed);
                    }
                    return Err(x);
                },
            }
            b.nil_test();
            let at: usize = b.here();
            b.put(branch_to(true, 0));
            let ghost before = out(*b);
            match emit_ifnotnil_arm(cx, in_block, h, b, sid, &args[0]) {
                Ok(_) => {},
                Err(x) => {
                    proof {
                        let failed = not_nil_arm(*cx, in_block, hv, sid, args@[0], before);
                        lemma_dissolved_stuck(*cx, in_block, hv, sid, args@[1], failed);
                    }
                    return Err(x);
                },
            }
            let jump: usize = b.here();
            b.put(Instr::JumpFwd(0));
            let other: usize = b.here();
            b.fix(at, branch_to(true, other));
            b.put(Instr::Pop);
            match emit_dissolved_body(cx, in_block, h, b, sid, &args[1]) {
                Ok(_) => {},
                Err(x) => {
                    return Err(x);
                },
            }
            let end: usize = b.here();
            b.fix(jump, Instr::JumpFwd(end));
            Ok(())
        },
        _ => Ok(()),
    }
}

/// A loop without a test.
#[verifier::spinoff_prover]
#[verifier::rlimit(40)]
fn emit_repeat(cx: &Cx, in_block: bool, h: &mut Vec<(String, u8)>, b: &mut Builder, sid: u32, e: &Expr, c: Control) -> (r: Result<(), CompileError>)
    requires
        cx_ok(*cx, sid),
        inlines(*e),
        inlines_as(*e, c),
        c is Repeat,
        placed(*e),
        ids_ok(*e, cx.capture.scopes@.len()),
    ensures
        done(r, *old(b), *final(b), inlined(*cx, in_block, vars_view(old(h)@), sid, *e, out(*old(b)))),
        r is Ok ==> final(h)@ == old(h)@,
    decreases *e, 2int, 0int,
{
    match e {
        Expr::Send { receiver, selector, args, .. } => {
            proof {
                lemma_shape(selector@, **receiver, args@, c);
                lemma_parts(*e, cx.capture.scopes@.len());
            }
            let start: usize = b.here();
            match emit_dissolved_body(cx, in_block, h, b, sid, receiver) {
                Ok(_) => {},
                Err(x) => {
                    return Err(x);
                },
            }
            b.put(Instr::Pop);
            b.put(Instr::JumpBack(start));
            b.put(Instr::PushNil);
            Ok(())
        },
        _ => Ok(()),
    }
}

/// A counted loop over a block that takes the counter.
#[verifier::spinoff_prover]
#[verifier::rlimit(40)]
fn emit_to_do(cx: &Cx, in_block: bool, h: &mut Vec<(String, u8)>, b: &mut Builder, sid: u32, e: &Expr, c: Control) -> (r: Result<(), CompileError>)
    requires
        cx_ok(*cx, sid),
        inlines(*e),
        inlines_as(*e, c),
        c is ToDo,
        placed(*e),
        ids_ok(*e, cx.capture.scopes@.len()),
    ensures
        done(r, *old(b), *final(b), inlined(*cx, in_block, vars_view(old(h)@), sid, *e, out(*old(b)))),
        r is Ok ==> final(h)@ == old(h)@,
    decreases *e, 2int, 0int,
{
    let ghost hv = vars_view(h@);
    match e {
        Expr::Send { receiver, selector, args, .. } => {
            proof {
                lemma_shape(selector@, **receiver, args@, c);
                lemma_parts(*e, cx.capture.scopes@.len());
            }
            let ghost before = out(*b);
            match emit_expr(cx, in_block, h, b, sid, receiver) {
                Ok(_) => {},
                Err(x) => {
                    proof {
                        let failed = expr(*cx, in_block, hv, sid, **receiver, before);
                        lemma_expr_stuck(*cx, in_block, hv, sid, args@[0], failed);
                        lemma_values_stuck(*cx, in_block, hv.push((args@[1]->Block_0.params@[0]@, failed.next as u8)), sid, args@[1]->Block_0.body@, failed);
                    }
                    return Err(x);
                },
            }
            b.put(Instr::Dup);
            let i: u8 = b.took();
            b.put(Instr::StoreTempPop(i));
            let ghost before = out(*b);
            match emit_expr(cx, in_block, h, b, sid, &args[0]) {
                Ok(_) => {},
                Err(x) => {
                    proof {
                        let failed = expr(*cx, in_block, hv, sid, args@[0], before);
                        lemma_values_stuck(*cx, in_block, hv.push((args@[1]->Block_0.params@[0]@, i)), sid, args@[1]->Block_0.body@, failed);
                    }
                    return Err(x);
                },
            }
            let limit: u8 = b.took();
            b.put(Instr::StoreTempPop(limit));
            let test: usize = b.here();
            b.loop_test(i, limit);
            let at: usize = b.here();
            b.put(branch_to(false, 0));
            match &args[1] {
                Expr::Block(blk) => {
                    let ghost h0 = h@;
                    h.push((blk.params[0].clone(), i));
                    assert(vars_view(h@) =~= vars_view(h0).push((blk.params@[0]@, i)));
                    match emit_statement_seq(cx, in_block, h, b, sid, &blk.body) {
                        Ok(_) => {},
                        Err(x) => {
                            return Err(x);
                        },
                    }
                    let _ = h.pop();
                    assert(h@ =~= h0);
                },
                _ => {},
            }
            b.put(Instr::Pop);
            b.loop_step(i, test);
            let end: usize = b.here();
            b.fix(at, branch_to(false, end));
            Ok(())
        },
        _ => Ok(()),
    }
}

/// Gives a dissolved block's variables fresh slots.
fn push_hoist_scope(h: &mut Vec<(String, u8)>, b: &mut Builder, blk: &BlockNode)
    ensures
        vars_view(final(h)@) == inside(vars_view(old(h)@), *blk, out(*old(b))),
        final(h)@.len() >= old(h)@.len(),
        final(h)@.subrange(0, old(h)@.len() as int) == old(h)@,
        out(*final(b)) == out(*old(b)).took_block(*blk),
        final(b).code@ == old(b).code@,
        final(b).next >= old(b).next,
{
    let ghost names = block_names(*blk);
    let ghost next0 = b.next;
    let np: usize = blk.params.len();
    let ghost h0 = h@;
    let mut i: usize = 0;
    assert(h@.subrange(0, h0.len() as int) =~= h0);
    while i < np
        invariant
            i <= np,
            np == blk.params@.len(),
            names == block_names(*blk),
            h@.len() == h0.len() + i,
            h@.subrange(0, h0.len() as int) == h0,
            vars_view(h@) == bound(vars_view(h0), names, next0, i as int),
            b.next == after(next0, i as int),
            b.next >= old(b).next,
            out(*b) == (Out { next: b.next, ..out(*old(b)) }),
        decreases np - i,
    {
        let ghost h1 = h@;
        let slot: u8 = b.next as u8;
        h.push((blk.params[i].clone(), slot));
        b.next = next_slot(b.next);
        proof {
            assert(names[i as int] == blk.params@[i as int]@);
            assert(vars_view(h@) =~= vars_view(h1).push((blk.params@[i as int]@, slot)));
            assert(h@.subrange(0, h0.len() as int) =~= h1.subrange(0, h0.len() as int));
        }
        i += 1;
    }
    let nt: usize = blk.temps.len();
    let mut k: usize = 0;
    while k < nt
        invariant
            k <= nt,
            np == blk.params@.len(),
            nt == blk.temps@.len(),
            names == block_names(*blk),
            h@.len() == h0.len() + np + k,
            h@.subrange(0, h0.len() as int) == h0,
            vars_view(h@) == bound(vars_view(h0), names, next0, np + k),
            b.next == after(next0, np + k),
            b.next >= old(b).next,
            out(*b) == (Out { next: b.next, ..out(*old(b)) }),
        decreases nt - k,
    {
        let ghost h1 = h@;
        let slot: u8 = b.next as u8;
        h.push((blk.temps[k].clone(), slot));
        b.next = next_slot(b.next);
        proof {
            assert(names[np + k] == blk.temps@[k as int]@);
            assert(vars_view(h@) =~= vars_view(h1).push((blk.temps@[k as int]@, slot)));
            assert(h@.subrange(0, h0.len() as int) =~= h1.subrange(0, h0.len() as int));
        }
        k += 1;
    }
}

#[verifier::spinoff_prover]
fn emit_dissolved_body(cx: &Cx, in_block: bool, h: &mut Vec<(String, u8)>, b: &mut Builder, sid: u32, e: &Expr) -> (r: Result<
    (),
    CompileError,
>)
    requires
        cx_ok(*cx, sid),
        *e is Block,
        placed(*e),
        ids_ok_at(*e, true, cx.capture.scopes@.len()),
    ensures
        done(r, *old(b), *final(b), dissolved(*cx, in_block, vars_view(old(h)@), sid, *e, out(*old(b)))),
        r is Ok ==> final(h)@ == old(h)@,
    decreases *e, 1int, 0int,
{
    match e {
        Expr::Block(blk) => {
            let n: usize = h.len();
            push_hoist_scope(h, b, blk);
            match emit_statement_seq(cx, in_block, h, b, sid, &blk.body) {
                Ok(_) => {},
                Err(x) => {
                    return Err(x);
                },
            }
            h.truncate(n);
            Ok(())
        },
        _ => Ok(()),
    }
}

#[verifier::spinoff_prover]
fn emit_ifnotnil_arm(cx: &Cx, in_block: bool, h: &mut Vec<(String, u8)>, b: &mut Builder, sid: u32, e: &Expr) -> (r: Result<
    (),
    CompileError,
>)
    requires
        cx_ok(*cx, sid),
        *e is Block,
        placed(*e),
        ids_ok_at(*e, true, cx.capture.scopes@.len()),
    ensures
        done(r, *old(b), *final(b), not_nil_arm(*cx, in_block, vars_view(old(h)@), sid, *e, out(*old(b)))),
        r is Ok ==> final(h)@ == old(h)@,
    decreases *e, 2int, 0int,
{
    match e {
        Expr::Block(blk) => {
            if blk.params.len() == 0 {
                b.put(Instr::Pop);
                return emit_dissolved_body(cx, in_block, h, b, sid, e);
            }
            let n: usize = h.len();
            push_hoist_scope(h, b, blk);
            let ghost h2 = vars_view(h@);
            let ghost o1 = out(*b);
            match emit_store(cx, h, b, sid, blk.params[0].as_str(), blk.span) {
                Ok(_) => {},
                Err(x) => {
                    proof {
                        let failed = o1.store(*cx, h2, sid, blk.params@[0]@, blk.span);
                        lemma_values_stuck(*cx, in_block, h2, sid, blk.body@, failed);
                    }
                    return Err(x);
                },
            }
            match emit_statement_seq(cx, in_block, h, b, sid, &blk.body) {
                Ok(_) => {},
                Err(x) => {
                    return Err(x);
                },
            }
            h.truncate(n);
            Ok(())
        },
        _ => Ok(()),
    }
}

#[verifier::spinoff_prover]
fn emit_statement_seq(cx: &Cx, in_block: bool, h: &mut Vec<(String, u8)>, b: &mut Builder, sid: u32, es: &Vec<Expr>) -> (r: Result<
    (),
    CompileError,
>)
    requires
        cx_ok(*cx, sid),
        placed_body(es@, es@.len() as int),
        ids_ok_list(es@, cx.capture.scopes@.len(), es@.len() as int),
    ensures
        done(r, *old(b), *final(b), values(*cx, in_block, vars_view(old(h)@), sid, es@, out(*old(b)))),
        r is Ok ==> final(h)@ == old(h)@,
    decreases es@, es@.len() + 1, 0int,
{
    let n: usize = es.len();
    if n == 0 {
        b.put(Instr::PushNil);
        return Ok(());
    }
    match emit_statement_discards(cx, in_block, h, b, sid, es, n - 1) {
        Ok(_) => {},
        Err(x) => {
            return Err(x);
        },
    }
    proof {
        assert(decreases_to!(es@ => es@[n - 1]));
        lemma_placed_stmt(es@, n as int, n - 1);
        lemma_ids_each(es@, cx.capture.scopes@.len(), n as int, n - 1);
    }
    match &es[n - 1] {
        Expr::Return { value, .. } => {
            match emit_expr(cx, in_block, h, b, sid, value) {
                Ok(_) => {},
                Err(x) => {
                    return Err(x);
                },
            }
            b.ret(in_block);
            Ok(())
        },
        _ => emit_statement_value(cx, in_block, h, b, sid, &es[n - 1]),
    }
}

/// A statement that leaves its value.
#[verifier::spinoff_prover]
fn emit_statement_value(cx: &Cx, in_block: bool, h: &mut Vec<(String, u8)>, b: &mut Builder, sid: u32, e: &Expr) -> (r: Result<
    (),
    CompileError,
>)
    requires
        cx_ok(*cx, sid),
        placed(*e),
        ids_ok(*e, cx.capture.scopes@.len()),
    ensures
        done(r, *old(b), *final(b), value_of(*cx, in_block, vars_view(old(h)@), sid, *e, out(*old(b)))),
        r is Ok ==> final(h)@ == old(h)@,
    decreases *e, 4int, 0int,
{
    b.line(e.span().line);
    match e {
        Expr::Assign { name, value, span } => {
            match emit_expr(cx, in_block, h, b, sid, value) {
                Ok(_) => {},
                Err(x) => {
                    return Err(x);
                },
            }
            b.put(Instr::Dup);
            emit_store(cx, h, b, sid, name.as_str(), *span)
        },
        _ => emit_expr(cx, in_block, h, b, sid, e),
    }
}

/// A statement that leaves nothing.
#[verifier::spinoff_prover]
fn emit_statement_discard(cx: &Cx, in_block: bool, h: &mut Vec<(String, u8)>, b: &mut Builder, sid: u32, e: &Expr) -> (r: Result<
    (),
    CompileError,
>)
    requires
        cx_ok(*cx, sid),
        placed_stmt(*e),
        ids_ok(*e, cx.capture.scopes@.len()),
    ensures
        done(r, *old(b), *final(b), discard(*cx, in_block, vars_view(old(h)@), sid, *e, out(*old(b)))),
        r is Ok ==> final(h)@ == old(h)@,
    decreases *e, 4int, 0int,
{
    b.line(e.span().line);
    match e {
        Expr::Return { value, .. } => {
            match emit_expr(cx, in_block, h, b, sid, value) {
                Ok(_) => {},
                Err(x) => {
                    return Err(x);
                },
            }
            b.ret(in_block);
            Ok(())
        },
        Expr::Assign { name, value, span } => {
            match emit_expr(cx, in_block, h, b, sid, value) {
                Ok(_) => {},
                Err(x) => {
                    return Err(x);
                },
            }
            emit_store(cx, h, b, sid, name.as_str(), *span)
        },
        _ => {
            match emit_expr(cx, in_block, h, b, sid, e) {
                Ok(_) => {},
                Err(x) => {
                    return Err(x);
                },
            }
            b.put(Instr::Pop);
            Ok(())
        },
    }
}

/// The first `n` statements.
#[verifier::spinoff_prover]
fn emit_statement_discards(
    cx: &Cx,
    in_block: bool,
    h: &mut Vec<(String, u8)>,
    b: &mut Builder,
    sid: u32,
    es: &Vec<Expr>,
    n: usize,
) -> (r: Result<(), CompileError>)
    requires
        cx_ok(*cx, sid),
        n <= es@.len(),
        placed_body(es@, es@.len() as int),
        ids_ok_list(es@, cx.capture.scopes@.len(), es@.len() as int),
    ensures
        done(r, *old(b), *final(b), discards(*cx, in_block, vars_view(old(h)@), sid, es@, n as int, out(*old(b)))),
        r is Ok ==> final(h)@ == old(h)@,
    decreases es@, es@.len(), 0int,
{
    let ghost hv = vars_view(h@);
    let mut i: usize = 0;
    while i < n
        invariant
            i <= n <= es@.len(),
            cx_ok(*cx, sid),
            placed_body(es@, es@.len() as int),
            ids_ok_list(es@, cx.capture.scopes@.len(), es@.len() as int),
            hv == vars_view(old(h)@),
            h@ == old(h)@,
            discards(*cx, in_block, hv, sid, es@, i as int, out(*old(b))).err is None,
            out(*b) == discards(*cx, in_block, hv, sid, es@, i as int, out(*old(b))),
            b.code@.len() >= old(b).code@.len(),
            b.next >= old(b).next,
        decreases n - i,
    {
        proof {
            assert(decreases_to!(es@ => es@[i as int]));
            lemma_placed_stmt(es@, es@.len() as int, i as int);
            lemma_ids_each(es@, cx.capture.scopes@.len(), es@.len() as int, i as int);
        }
        match emit_statement_discard(cx, in_block, h, b, sid, &es[i]) {
            Ok(_) => {},
            Err(x) => {
                proof {
                    lemma_discards_err(*cx, in_block, hv, sid, es@, i + 1, n as int, out(*old(b)));
                }
                return Err(x);
            },
        }
        i += 1;
    }
    Ok(())
}

/// Emits a body.
#[verifier::spinoff_prover]
fn emit_body(cx: &Cx, kind: BodyKind, b: &mut Builder, sid: u32, es: &Vec<Expr>) -> (r: Result<(), CompileError>)
    requires
        cx_ok(*cx, sid),
        placed_body(es@, es@.len() as int),
        ids_ok_list(es@, cx.capture.scopes@.len(), es@.len() as int),
    ensures
        done(r, *old(b), *final(b), body(*cx, kind, sid, es@, out(*old(b)))),
    decreases es@, es@.len() + 1, 0int,
{
    let mut h: Vec<(String, u8)> = Vec::new();
    assert(vars_view(h@) =~= Seq::<(Seq<char>, u8)>::empty());
    let n: usize = es.len();
    let in_block: bool = match kind {
        BodyKind::Block => true,
        _ => false,
    };
    if n == 0 {
        if in_block {
            b.put(Instr::PushNil);
            b.put(Instr::BlockReturnTos);
        } else {
            b.put(Instr::ReturnSelf);
        }
        return Ok(());
    }
    let is_method: bool = match kind {
        BodyKind::Method => true,
        _ => false,
    };
    if is_method {
        match emit_statement_discards(cx, false, &mut h, b, sid, es, n) {
            Ok(_) => {},
            Err(x) => {
                return Err(x);
            },
        }
        b.put(Instr::ReturnSelf);
        return Ok(());
    }
    match emit_statement_discards(cx, in_block, &mut h, b, sid, es, n - 1) {
        Ok(_) => {},
        Err(x) => {
            return Err(x);
        },
    }
    proof {
        assert(decreases_to!(es@ => es@[n - 1]));
        lemma_placed_stmt(es@, n as int, n - 1);
        lemma_ids_each(es@, cx.capture.scopes@.len(), n as int, n - 1);
    }
    match &es[n - 1] {
        Expr::Return { value, .. } => {
            match emit_expr(cx, in_block, &mut h, b, sid, value) {
                Ok(_) => {},
                Err(x) => {
                    return Err(x);
                },
            }
            b.ret(in_block);
        },
        _ => {
            match emit_statement_value(cx, in_block, &mut h, b, sid, &es[n - 1]) {
                Ok(_) => {},
                Err(x) => {
                    return Err(x);
                },
            }
            if in_block {
                b.put(Instr::BlockReturnTos);
            } else {
                b.put(Instr::ReturnTos);
            }
        },
    }
    Ok(())
}

fn emit_prologue(info: &ScopeInfo, b: &mut Builder)
    requires
        forall|v: int| 0 <= v < info.vars@.len() ==> var_ok((#[trigger] info.vars@[v]).1),
    ensures
        out(*final(b)) == entry_moves(*info, out(*old(b))),
        final(b).code@.len() >= old(b).code@.len(),
        final(b).next >= old(b).next,
{
    if !info.has_ctx {
        return;
    }
    let n: usize = if info.argc <= info.vars.len() {
        info.argc
    } else {
        info.vars.len()
    };
    let mut k: usize = 0;
    while k < n
        invariant
            k <= n <= info.vars@.len(),
            forall|v: int| 0 <= v < info.vars@.len() ==> var_ok((#[trigger] info.vars@[v]).1),
            out(*b) == prologue(*info, k as int, out(*old(b))),
            b.code@.len() >= old(b).code@.len(),
            b.next >= old(b).next,
        decreases n - k,
    {
        let slot: VarSlot = info.vars[k].1;
        assert(var_ok(info.vars@[k as int].1));
        if slot.captured {
            let c: usize = match slot.ctx_slot {
                Some(c) => c,
                None => 0,
            };
            b.put(Instr::PushTemp(k as u8));
            b.put(Instr::StoreCtxTempPop { depth: 0, slot: c as u8 });
        }
        k += 1;
    }
}

fn too_many_text(what: &str, n: usize, max: usize) -> (s: String)
    ensures
        s@ == too_many(what@, n as nat, max as nat),
{
    let mut s: String = String::new();
    s.append("too many ");
    s.append(what);
    s.append(" (");
    push_dec(&mut s, n as u64);
    s.append(" > ");
    push_dec(&mut s, max as u64);
    s.append(")");
    assert(s@ =~= too_many(what@, n as nat, max as nat));
    s
}

fn check_limits(l: &MethodLimits, argc: usize, ntemps: usize, nctx: usize) -> (r: Option<String>)
    ensures
        match r {
            Some(m) => over_limit(*l, argc as nat, ntemps as nat, nctx as nat) == Some(m@),
            None => over_limit(*l, argc as nat, ntemps as nat, nctx as nat) is None,
        },
{
    if argc > l.argc_max {
        return Some(too_many_text("parameters", argc, l.argc_max));
    }
    if ntemps > l.ntemps_max {
        return Some(too_many_text("temporaries/locals", ntemps, l.ntemps_max));
    }
    if nctx > l.nctx_max {
        return Some(too_many_text("captured variables", nctx, l.nctx_max));
    }
    None
}

fn add_counts(a: usize, b: usize) -> (r: usize)
    ensures
        r == sum(a, b),
{
    if a <= usize::MAX - b {
        a + b
    } else {
        usize::MAX
    }
}

fn new_builder(next: usize, globals: Vec<String>) -> (b: Builder)
    ensures
        out(b) == fresh(next, texts(globals@)),
        b.next == next,
{
    let b = Builder {
        code: Vec::new(),
        lits: Vec::new(),
        objs: Vec::new(),
        blocks: Vec::new(),
        ics: Vec::new(),
        lines: Vec::new(),
        next,
        globals,
    };
    assert(out(b) =~= fresh(next, texts(globals@)));
    b
}

/// What a builder holds, as a unit.
fn finish(b: Builder, selector: &str, argc: usize, info: &ScopeInfo, is_block: bool, prim_fails: bool) -> (r: (
    CompiledMethod,
    Vec<String>,
    Vec<(usize, u32)>,
))
    requires
        b.next >= argc,
    ensures
        unit_view(r.0) == built(out(b), selector@, argc, *info, is_block, prim_fails),
        texts(r.1@) == out(b).globals,
        r.2@ == out(b).lines,
{
    let m = CompiledMethod {
        selector: selector.to_owned(),
        argc,
        ntemps: b.next - argc,
        has_ctx: info.has_ctx,
        is_block,
        prim_fails,
        captures_ctx: is_block && info.captures_ctx,
        nctx: info.nctx,
        primitive: 0,
        code: b.code,
        literals: b.lits,
        objects: b.objs,
        blocks: b.blocks,
        ics: b.ics,
        line_map: Vec::new(),
        descriptor: None,
    };
    assert(unit_view(m) =~= built(out(b), selector@, argc, *info, is_block, prim_fails));
    (m, b.globals, b.lines)
}

#[verifier::spinoff_prover]
fn emit_block_literal(cx: &Cx, b: &mut Builder, blk: &BlockNode) -> (r: Result<(), CompileError>)
    requires
        cx.capture.ok(),
        blk.scope_id < cx.capture.scopes@.len(),
        placed_body(blk.body@, blk.body@.len() as int),
        ids_ok_list(blk.body@, cx.capture.scopes@.len(), blk.body@.len() as int),
    ensures
        done(r, *old(b), *final(b), block_literal(*cx, *blk, out(*old(b)))),
    decreases *blk, 0int, 0int,
{
    let info: &ScopeInfo = &cx.capture.scopes[blk.scope_id as usize];
    assert(scope_ok(cx.capture.scopes@[blk.scope_id as int], blk.scope_id as int));
    let argc: usize = blk.params.len();
    match check_limits(&cx.holder.limits, argc, info.frame_temp_count, info.nctx) {
        Some(msg) => {
            return Err(error(blk.span, msg));
        },
        None => {},
    }
    let mut globals: Vec<String> = Vec::new();
    std::mem::swap(&mut globals, &mut b.globals);
    let next: usize = add_counts(info.frame_temp_count, argc);
    let mut inner: Builder = new_builder(next, globals);
    emit_prologue(info, &mut inner);
    match emit_body(cx, BodyKind::Block, &mut inner, blk.scope_id, &blk.body) {
        Ok(_) => {},
        Err(x) => {
            std::mem::swap(&mut inner.globals, &mut b.globals);
            return Err(x);
        },
    }
    let (unit, globals, _lines): (CompiledMethod, Vec<String>, Vec<(usize, u32)>) = finish(
        inner,
        "aBlock",
        argc,
        info,
        true,
        false,
    );
    b.globals = globals;
    let lit: u32 = b.lits.len() as u32;
    let k: usize = b.blocks.len();
    let ghost units = b.blocks@;
    let ghost lits = entries_view(b.lits@);
    b.lits.push(Entry::Block(k));
    b.blocks.push(unit);
    proof {
        lemma_units_prefix(units, b.blocks@, k as int);
        assert(entries_view(b.lits@) =~= lits.push(EntryV::Block(k as nat)));
        assert(units_view(b.blocks@, k + 1) =~= units_view(units, k as int).push(unit_view(unit)));
    }
    b.put(Instr::PushClosure { lit, ncopied: 0 });
    Ok(())
}

// ── Methods ─────────────────────────────────────────────────────────────

/// A statement's line, counted from the method's first.
pub open spec fn relative_line(line: u32, header: u32) -> u32 {
    if line <= header {
        1
    } else if line - header == u32::MAX {
        u32::MAX
    } else {
        (line - header + 1) as u32
    }
}

pub open spec fn relative_lines(lines: Seq<(usize, u32)>, header: u32) -> Seq<(usize, u32)> {
    Seq::new(lines.len(), |i: int| (lines[i].0, relative_line(lines[i].1, header)))
}

/// A primitive with too many arguments, as it is reported.
pub open spec fn too_many_args(selector: Seq<char>, n: nat, max: nat) -> Seq<char> {
    "primitive method '"@ + selector + "' takes "@ + dec_text(n) + " arguments but a primitive supports at most "@
        + dec_text(max)
        + " — pass the extra arguments in a structure (e.g. an Array, a spec object, or scalars packed into a SmallInteger)"@
}

/// A foreign function's descriptor: kind, name, class, class side, result, arguments, the address
/// once it is known, and the library.
pub open spec fn ffi_slots(f: FfiPragma) -> Seq<SlotV> {
    match f {
        FfiPragma::Function { name, library, ret, args } => seq![
            SlotV::Symbol("function"@),
            SlotV::Symbol(name@),
            SlotV::Nil,
            SlotV::Bool(false),
            SlotV::Symbol(ret@),
            SlotV::Symbols(texts(args@)),
            SlotV::Nil,
            match library {
                Some(l) => SlotV::Symbol(l@),
                None => SlotV::Nil,
            },
        ],
        FfiPragma::Selector { selector, class, class_side, ret, args } => seq![
            SlotV::Symbol("selector"@),
            SlotV::Symbol(selector@),
            SlotV::Symbol(class@),
            SlotV::Bool(class_side),
            SlotV::Symbol(ret@),
            SlotV::Symbols(texts(args@)),
            SlotV::Nil,
            SlotV::Nil,
        ],
    }
}

/// What a method is compiled to: its code, or the failure.
pub open spec fn method_out(cx: Cx, m: MethodNode, globals: Seq<Seq<char>>) -> Out {
    let info = cx.capture.scopes@[0];
    let argc = m.params@.len();
    let limits = cx.holder.limits;
    let start = fresh(sum(info.frame_temp_count, argc as usize), globals);
    match over_limit(limits, argc, info.frame_temp_count as nat, info.nctx as nat) {
        Some(msg) => start.fail(m.span, msg),
        None => if m.primitive is Some && argc > limits.primitive_args_max {
            start.fail(m.span, too_many_args(m.pattern_selector@, argc, limits.primitive_args_max as nat))
        } else {
            body(
                cx,
                if cx.top_level {
                    BodyKind::DoIt
                } else {
                    BodyKind::Method
                },
                0,
                m.body@,
                entry_moves(info, start),
            )
        },
    }
}

/// The method around that code.
pub open spec fn method_unit(cx: Cx, m: MethodNode, o: Out) -> UnitV {
    let unit = built(
        o,
        m.pattern_selector@,
        m.params@.len() as usize,
        cx.capture.scopes@[0],
        false,
        m.primitive is Some && m.body@.len() > 0,
    );
    UnitV {
        primitive: match (m.ffi, m.primitive) {
            (Some(_), _) => cx.holder.limits.ffi_primitive,
            (None, Some(p)) => p as i64,
            (None, None) => 0,
        },
        literals: if m.ffi is Some {
            Seq::empty()
        } else {
            unit.literals
        },
        line_map: if cx.top_level {
            Seq::empty()
        } else {
            relative_lines(o.lines, m.span.line)
        },
        descriptor: match m.ffi {
            Some(f) => Some(ffi_slots(f)),
            None => None,
        },
        ..unit
    }
}

/// The context that a method is compiled in.
pub open spec fn method_cx(cx: Cx, holder: Holder, class_side: bool, top_level: bool, m: MethodNode) -> bool {
    &&& *cx.holder == holder
    &&& cx.class_side == class_side
    &&& cx.top_level == top_level
    &&& texts(cx.inst_vars@) == if class_side {
        Seq::<Seq<char>>::empty()
    } else {
        flat_inst_vars(holder.chain@, 0)
    }
    &&& capture_of(cx.capture, walk_method(m))
}

/// What compiling a method returns, and the globals there are afterwards.
pub open spec fn compiled(
    cx: Cx,
    m: MethodNode,
    before: Seq<Seq<char>>,
    r: Result<CompiledMethod, CompileError>,
    after: Seq<Seq<char>>,
) -> bool {
    let o = method_out(cx, m, before);
    &&& after == o.globals
    &&& match r {
        Ok(unit) => o.err is None && unit_view(unit) == method_unit(cx, m, o),
        Err(e) => o.err == Some((e.span, e.msg@)) && e.path is None && !e.eof,
    }
}

fn copy_texts(v: &Vec<String>) -> (r: Vec<String>)
    ensures
        texts(r@) == texts(v@),
{
    let mut r: Vec<String> = Vec::new();
    let mut i: usize = 0;
    while i < v.len()
        invariant
            i <= v@.len(),
            r@.len() == i,
            forall|k: int| 0 <= k < i ==> (#[trigger] r@[k])@ == v@[k]@,
        decreases v@.len() - i,
    {
        r.push(v[i].clone());
        i += 1;
    }
    assert(texts(r@) =~= texts(v@));
    r
}

fn build_ffi_descriptor(ffi: &FfiPragma) -> (d: Vec<DescSlot>)
    ensures
        slots_view(d@) == ffi_slots(*ffi),
{
    let mut d: Vec<DescSlot> = Vec::new();
    match ffi {
        FfiPragma::Function { name, library, ret, args } => {
            d.push(DescSlot::Symbol("function".to_owned()));
            d.push(DescSlot::Symbol(name.clone()));
            d.push(DescSlot::Nil);
            d.push(DescSlot::Bool(false));
            d.push(DescSlot::Symbol(ret.clone()));
            d.push(DescSlot::Symbols(copy_texts(args)));
            d.push(DescSlot::Nil);
            match library {
                Some(l) => d.push(DescSlot::Symbol(l.clone())),
                None => d.push(DescSlot::Nil),
            }
        },
        FfiPragma::Selector { selector, class, class_side, ret, args } => {
            d.push(DescSlot::Symbol("selector".to_owned()));
            d.push(DescSlot::Symbol(selector.clone()));
            d.push(DescSlot::Symbol(class.clone()));
            d.push(DescSlot::Bool(*class_side));
            d.push(DescSlot::Symbol(ret.clone()));
            d.push(DescSlot::Symbols(copy_texts(args)));
            d.push(DescSlot::Nil);
            d.push(DescSlot::Nil);
        },
    }
    assert(slots_view(d@) =~= ffi_slots(*ffi));
    d
}

fn to_relative(lines: &Vec<(usize, u32)>, header: u32) -> (r: Vec<(usize, u32)>)
    ensures
        r@ == relative_lines(lines@, header),
{
    let mut r: Vec<(usize, u32)> = Vec::new();
    let mut i: usize = 0;
    while i < lines.len()
        invariant
            i <= lines@.len(),
            r@ =~= relative_lines(lines@, header).subrange(0, i as int),
        decreases lines@.len() - i,
    {
        let (at, line): (usize, u32) = lines[i];
        let rel: u32 = if line <= header {
            1
        } else if line - header == u32::MAX {
            u32::MAX
        } else {
            line - header + 1
        };
        r.push((at, rel));
        i += 1;
    }
    r
}

fn too_many_args_text(selector: &str, n: usize, max: usize) -> (s: String)
    ensures
        s@ == too_many_args(selector@, n as nat, max as nat),
{
    let mut s: String = String::new();
    s.append("primitive method '");
    s.append(selector);
    s.append("' takes ");
    push_dec(&mut s, n as u64);
    s.append(" arguments but a primitive supports at most ");
    push_dec(&mut s, max as u64);
    s.append(
        " — pass the extra arguments in a structure (e.g. an Array, a spec object, or scalars packed into a SmallInteger)",
    );
    assert(s@ =~= too_many_args(selector@, n as nat, max as nat));
    s
}

#[verifier::spinoff_prover]
fn compile_method_inner(
    holder: &Holder,
    class_side: bool,
    top_level: bool,
    method: &mut MethodNode,
    globals: &mut Vec<String>,
) -> (r: Result<CompiledMethod, CompileError>)
    requires
        walk_method(*old(method)).scopes.len() <= u32::MAX,
        placed_body(old(method).body@, old(method).body@.len() as int),
    ensures
        analyzed(*old(method), *final(method)),
        exists|cx: Cx|
            #[trigger] method_cx(cx, *holder, class_side, top_level, *final(method)) && compiled(
                cx,
                *final(method),
                texts(old(globals)@),
                r,
                texts(final(globals)@),
            ),
{
    let capture: CaptureInfo = analyze(method);
    let inst_vars: Vec<String> = if class_side {
        Vec::new()
    } else {
        flatten_inst_vars(&holder.chain)
    };
    let cx = Cx { holder, inst_vars, class_side, top_level, capture };
    proof {
        assert(texts(cx.inst_vars@) =~= if class_side {
            Seq::<Seq<char>>::empty()
        } else {
            flat_inst_vars(holder.chain@, 0)
        });
        lemma_placed_body_same(old(method).body@, method.body@, method.body@.len() as int);
        lemma_ids_list(
            method.body@,
            0,
            method_scope(*method),
            cx.capture.scopes@.len(),
            method.body@.len() as int,
        );
        assert(method_cx(cx, *holder, class_side, top_level, *method));
    }
    let info: &ScopeInfo = &cx.capture.scopes[0];
    assert(scope_ok(cx.capture.scopes@[0], 0));
    let argc: usize = method.params.len();
    let limits: &MethodLimits = &holder.limits;
    match check_limits(limits, argc, info.frame_temp_count, info.nctx) {
        Some(msg) => {
            let r: Result<CompiledMethod, CompileError> = Err(error(method.span, msg));
            assert(compiled(cx, *method, texts(old(globals)@), r, texts(globals@)));
            return r;
        },
        None => {},
    }
    if method.primitive.is_some() && argc > limits.primitive_args_max {
        let msg: String = too_many_args_text(method.pattern_selector.as_str(), argc, limits.primitive_args_max);
        let r: Result<CompiledMethod, CompileError> = Err(error(method.span, msg));
        assert(compiled(cx, *method, texts(old(globals)@), r, texts(globals@)));
        return r;
    }
    let mut known: Vec<String> = Vec::new();
    std::mem::swap(&mut known, globals);
    let mut b: Builder = new_builder(add_counts(info.frame_temp_count, argc), known);
    emit_prologue(info, &mut b);
    let kind: BodyKind = if top_level {
        BodyKind::DoIt
    } else {
        BodyKind::Method
    };
    match emit_body(&cx, kind, &mut b, 0, &method.body) {
        Ok(_) => {},
        Err(x) => {
            std::mem::swap(&mut b.globals, globals);
            let r: Result<CompiledMethod, CompileError> = Err(x);
            assert(compiled(cx, *method, texts(old(globals)@), r, texts(globals@)));
            return r;
        },
    }
    let prim_fails: bool = method.primitive.is_some() && method.body.len() > 0;
    let ghost o = out(b);
    let (mut unit, known, lines): (CompiledMethod, Vec<String>, Vec<(usize, u32)>) = finish(
        b,
        method.pattern_selector.as_str(),
        argc,
        info,
        false,
        prim_fails,
    );
    *globals = known;
    if !top_level {
        unit.line_map = to_relative(&lines, method.span.line);
    }
    match method.primitive {
        Some(p) => {
            unit.primitive = p as i64;
        },
        None => {},
    }
    match &method.ffi {
        Some(ffi) => {
            unit.primitive = limits.ffi_primitive;
            unit.descriptor = Some(build_ffi_descriptor(ffi));
            unit.literals = Vec::new();
        },
        None => {},
    }
    assert(unit_view(unit) =~= method_unit(cx, *method, o));
    let r: Result<CompiledMethod, CompileError> = Ok(unit);
    assert(compiled(cx, *method, texts(old(globals)@), r, texts(globals@)));
    r
}

/// Compiles a method. A method of the class side sees no instance variables. Globals are never
/// declared here.
pub fn compile_method(holder: &Holder, class_side: bool, method: &mut MethodNode, globals: &mut Vec<String>) -> (r: Result<
    CompiledMethod,
    CompileError,
>)
    requires
        walk_method(*old(method)).scopes.len() <= u32::MAX,
        placed_body(old(method).body@, old(method).body@.len() as int),
    ensures
        analyzed(*old(method), *final(method)),
        exists|cx: Cx|
            #[trigger] method_cx(cx, *holder, class_side, false, *final(method)) && compiled(
                cx,
                *final(method),
                texts(old(globals)@),
                r,
                texts(final(globals)@),
            ),
{
    compile_method_inner(holder, class_side, false, method, globals)
}

/// The method around a statement that is executed at once.
pub open spec fn doit_of(m: MethodNode, stmt: Expr) -> bool {
    &&& m.pattern_selector@ == "doIt"@
    &&& m.params@.len() == 0
    &&& m.temps@.len() == 0
    &&& m.primitive is None
    &&& m.ffi is None
    &&& m.body@ == seq![stmt]
    &&& !m.class_side
    &&& m.span == stmt.span()
}

/// The scopes of such a method.
pub open spec fn doit_walk(stmt: Expr) -> Walk {
    walk_list(
        seq![stmt],
        0,
        Walk {
            scopes: seq![Names { parent: None, is_method: true, argc: 0, names: Seq::empty() }],
            uses: Seq::empty(),
        },
        1,
    )
}

/// Compiles a statement as a method of its own, which returns the statement's value. A global that
/// it assigns to is declared where its name starts with an upper-case letter.
pub fn compile_doit(holder: &Holder, stmt: Expr, globals: &mut Vec<String>) -> (r: Result<CompiledMethod, CompileError>)
    requires
        doit_walk(stmt).scopes.len() <= u32::MAX,
        placed_stmt(stmt),
    ensures
        exists|m: MethodNode, after: MethodNode, cx: Cx|
            doit_of(m, stmt) && #[trigger] analyzed(m, after) && #[trigger] method_cx(cx, *holder, false, true, after)
                && compiled(cx, after, texts(old(globals)@), r, texts(final(globals)@)),
{
    let span: Span = stmt.span();
    let mut body: Vec<Expr> = Vec::new();
    let ghost stmt0 = stmt;
    body.push(stmt);
    let mut method = MethodNode {
        pattern_selector: "doIt".to_owned(),
        params: Vec::new(),
        primitive: None,
        ffi: None,
        temps: Vec::new(),
        body,
        class_side: false,
        span,
        type_sig: MethodSignature::default(),
    };
    let ghost m = method;
    proof {
        assert(m.body@ =~= seq![stmt0]);
        assert(method_scope(m).scopes =~= seq![
            Names { parent: None, is_method: true, argc: 0, names: Seq::empty() },
        ]) by {
            assert(texts(m.params@) + texts(m.temps@) =~= Seq::<Seq<char>>::empty());
        }
        assert(placed_body(m.body@, 0));
        assert(placed_body(m.body@, 1));
    }
    compile_method_inner(holder, false, true, &mut method, globals)
}

proof fn lemma_placed_same(a: Expr, b: Expr)
    requires
        same(a, b),
        placed(a),
    ensures
        placed(b),
    decreases a, 0int,
{
    match (a, b) {
        (Expr::Assign { value: v, .. }, Expr::Assign { value: v2, .. }) => {
            lemma_placed_same(*v, *v2);
        },
        (Expr::Send { receiver: r, args: aa, .. }, Expr::Send { receiver: r2, args: aa2, .. }) => {
            lemma_placed_same(*r, *r2);
            lemma_placed_list_same(aa@, aa2@, aa@.len() as int);
        },
        (Expr::Cascade { receiver: r, segments: g, .. }, Expr::Cascade { receiver: r2, segments: g2, .. }) => {
            lemma_placed_same(*r, *r2);
            lemma_placed_list_same(g@, g2@, g@.len() as int);
        },
        (Expr::DynArray { elems: g, .. }, Expr::DynArray { elems: g2, .. }) => {
            lemma_placed_list_same(g@, g2@, g@.len() as int);
        },
        (Expr::Block(x), Expr::Block(y)) => {
            lemma_placed_body_same(x.body@, y.body@, x.body@.len() as int);
        },
        _ => {},
    }
}

proof fn lemma_placed_list_same(a: Seq<Expr>, b: Seq<Expr>, k: int)
    requires
        same_list(a, b, k),
        a.len() == b.len(),
        placed_list(a, k),
    ensures
        placed_list(b, k),
    decreases a, k,
{
    if 0 < k <= a.len() {
        lemma_placed_list_same(a, b, k - 1);
        lemma_placed_same(a[k - 1], b[k - 1]);
    }
}

proof fn lemma_placed_body_same(a: Seq<Expr>, b: Seq<Expr>, k: int)
    requires
        same_list(a, b, k),
        a.len() == b.len(),
        placed_body(a, k),
    ensures
        placed_body(b, k),
    decreases a, k,
{
    if 0 < k <= a.len() {
        lemma_placed_body_same(a, b, k - 1);
        assert(same(a[k - 1], b[k - 1]));
        match (a[k - 1], b[k - 1]) {
            (Expr::Return { value: v, .. }, Expr::Return { value: v2, .. }) => {
                lemma_placed_same(*v, *v2);
            },
            _ => {
                lemma_placed_same(a[k - 1], b[k - 1]);
            },
        }
    }
}

/// A variable has one home: what a name stands for where it is read, it stands for where it is
/// written. A parameter of a dissolved block that a nested block captures is stored to the context
/// slot from which both read it.
pub proof fn law_variable_has_one_home(
    cx: Cx,
    h: Seq<(Seq<char>, u8)>,
    sid: u32,
    name: Seq<char>,
    globals: Seq<Seq<char>>,
)
    requires
        meaning(cx, h, sid, name, false, globals) !is Unknown,
    ensures
        meaning(cx, h, sid, name, true, globals) == meaning(cx, h, sid, name, false, globals),
        resolution(cx.capture.scopes@, sid, sid, name) matches Some(Resolved::Captured { depth, ctx_slot }) ==> meaning(
            cx,
            h,
            sid,
            name,
            true,
            globals,
        ) == VarV::Captured(depth, ctx_slot),
{
}

} // verus!
