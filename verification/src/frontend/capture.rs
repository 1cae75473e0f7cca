//! Which variables live in a context, which in a frame slot.
//!
//! A block that a control-flow selector dissolves has no scope of its own: its names become names
//! of the scope around it. Every other block opens a scope. A name that is used across a scope
//! boundary is captured and gets a slot in its scope's context; the others keep a frame slot.
use vstd::prelude::*;
use crate::frontend::ast::{BlockNode, Expr, MethodNode};
use crate::text::text_eq;

verus! {

// ── Dissolved blocks ────────────────────────────────────────────────────

/// Where a dissolved block stands in a send.
#[derive(Clone, Copy, Debug, PartialEq, Eq, Structural)]
pub enum BlockPos {
    Receiver,
    Arg(usize),
}

/// The selectors that are compiled to jumps.
#[derive(Clone, Copy, Debug, PartialEq, Eq, Structural)]
pub enum Control {
    IfTrue,
    IfFalse,
    And,
    Or,
    IfTrueIfFalse,
    IfFalseIfTrue,
    WhileTrueDo,
    WhileFalseDo,
    WhileTrue,
    WhileFalse,
    TimesRepeat,
    IfNil,
    IfNotNil,
    IfNilIfNotNil,
    IfNotNilIfNil,
    Repeat,
    ToDo,
}

/// The control-flow selector that a text names.
pub open spec fn control_of(s: Seq<char>) -> Option<Control> {
    if s == "ifTrue:"@ {
        Some(Control::IfTrue)
    } else if s == "ifFalse:"@ {
        Some(Control::IfFalse)
    } else if s == "and:"@ {
        Some(Control::And)
    } else if s == "or:"@ {
        Some(Control::Or)
    } else if s == "ifTrue:ifFalse:"@ {
        Some(Control::IfTrueIfFalse)
    } else if s == "ifFalse:ifTrue:"@ {
        Some(Control::IfFalseIfTrue)
    } else if s == "whileTrue:"@ {
        Some(Control::WhileTrueDo)
    } else if s == "whileFalse:"@ {
        Some(Control::WhileFalseDo)
    } else if s == "whileTrue"@ {
        Some(Control::WhileTrue)
    } else if s == "whileFalse"@ {
        Some(Control::WhileFalse)
    } else if s == "timesRepeat:"@ {
        Some(Control::TimesRepeat)
    } else if s == "ifNil:"@ {
        Some(Control::IfNil)
    } else if s == "ifNotNil:"@ {
        Some(Control::IfNotNil)
    } else if s == "ifNil:ifNotNil:"@ {
        Some(Control::IfNilIfNotNil)
    } else if s == "ifNotNil:ifNil:"@ {
        Some(Control::IfNotNilIfNil)
    } else if s == "repeat"@ {
        Some(Control::Repeat)
    } else if s == "to:do:"@ {
        Some(Control::ToDo)
    } else {
        None
    }
}

/// The control-flow selector that a text names.
pub fn control(s: &str) -> (r: Option<Control>)
    ensures
        r == control_of(s@),
{
    if text_eq(s, "ifTrue:") {
        Some(Control::IfTrue)
    } else if text_eq(s, "ifFalse:") {
        Some(Control::IfFalse)
    } else if text_eq(s, "and:") {
        Some(Control::And)
    } else if text_eq(s, "or:") {
        Some(Control::Or)
    } else if text_eq(s, "ifTrue:ifFalse:") {
        Some(Control::IfTrueIfFalse)
    } else if text_eq(s, "ifFalse:ifTrue:") {
        Some(Control::IfFalseIfTrue)
    } else if text_eq(s, "whileTrue:") {
        Some(Control::WhileTrueDo)
    } else if text_eq(s, "whileFalse:") {
        Some(Control::WhileFalseDo)
    } else if text_eq(s, "whileTrue") {
        Some(Control::WhileTrue)
    } else if text_eq(s, "whileFalse") {
        Some(Control::WhileFalse)
    } else if text_eq(s, "timesRepeat:") {
        Some(Control::TimesRepeat)
    } else if text_eq(s, "ifNil:") {
        Some(Control::IfNil)
    } else if text_eq(s, "ifNotNil:") {
        Some(Control::IfNotNil)
    } else if text_eq(s, "ifNil:ifNotNil:") {
        Some(Control::IfNilIfNotNil)
    } else if text_eq(s, "ifNotNil:ifNil:") {
        Some(Control::IfNotNilIfNil)
    } else if text_eq(s, "repeat") {
        Some(Control::Repeat)
    } else if text_eq(s, "to:do:") {
        Some(Control::ToDo)
    } else {
        None
    }
}

/// A literal block with a number of parameters in a range.
pub open spec fn literal_block(e: Expr, low: nat, high: nat) -> bool {
    e matches Expr::Block(b) && low <= b.params@.len() <= high
}

fn is_literal_block(e: &Expr, low: usize, high: usize) -> (r: bool)
    ensures
        r == literal_block(*e, low as nat, high as nat),
{
    match e {
        Expr::Block(b) => low <= b.params.len() && b.params.len() <= high,
        _ => false,
    }
}

/// The blocks that a send dissolves; none where it is a real send. The blocks must be written at
/// the send itself, with the selector's number of parameters. A loop over a range stays a send
/// where a nested block uses the loop variable.
pub open spec fn positions(selector: Seq<char>, receiver: Expr, args: Seq<Expr>) -> Option<Seq<BlockPos>>
    decreases args, 0int,
{
    match control_of(selector) {
        Some(Control::IfTrue) | Some(Control::IfFalse) | Some(Control::And) | Some(Control::Or) | Some(
            Control::TimesRepeat,
        ) | Some(Control::IfNil) => if args.len() == 1 && literal_block(args[0], 0, 0) {
            Some(seq![BlockPos::Arg(0)])
        } else {
            None
        },
        Some(Control::IfTrueIfFalse) | Some(Control::IfFalseIfTrue) => if args.len() == 2 && literal_block(
            args[0],
            0,
            0,
        ) && literal_block(args[1], 0, 0) {
            Some(seq![BlockPos::Arg(0), BlockPos::Arg(1)])
        } else {
            None
        },
        Some(Control::WhileTrueDo) | Some(Control::WhileFalseDo) => if args.len() == 1 && literal_block(receiver, 0, 0)
            && literal_block(args[0], 0, 0) {
            Some(seq![BlockPos::Receiver, BlockPos::Arg(0)])
        } else {
            None
        },
        Some(Control::WhileTrue) | Some(Control::WhileFalse) | Some(Control::Repeat) => if args.len() == 0
            && literal_block(receiver, 0, 0) {
            Some(seq![BlockPos::Receiver])
        } else {
            None
        },
        Some(Control::IfNotNil) => if args.len() == 1 && literal_block(args[0], 0, 1) {
            Some(seq![BlockPos::Arg(0)])
        } else {
            None
        },
        Some(Control::IfNilIfNotNil) => if args.len() == 2 && literal_block(args[0], 0, 0) && literal_block(
            args[1],
            0,
            1,
        ) {
            Some(seq![BlockPos::Arg(0), BlockPos::Arg(1)])
        } else {
            None
        },
        Some(Control::IfNotNilIfNil) => if args.len() == 2 && literal_block(args[0], 0, 1) && literal_block(
            args[1],
            0,
            0,
        ) {
            Some(seq![BlockPos::Arg(0), BlockPos::Arg(1)])
        } else {
            None
        },
        Some(Control::ToDo) => if args.len() == 2 {
            match args[1] {
                Expr::Block(b) => if b.params@.len() == 1 && !used_nested_in(
                    b.body@,
                    b.params@[0]@,
                    false,
                    b.body@.len() as int,
                ) {
                    Some(seq![BlockPos::Arg(1)])
                } else {
                    None
                },
                _ => None,
            }
        } else {
            None
        },
        None => None,
    }
}

/// Whether a position is among those dissolved.
pub open spec fn dissolves(p: Option<Seq<BlockPos>>, at: BlockPos) -> bool {
    p matches Some(s) && s.contains(at)
}

/// The positions that a send dissolves; none for a send to the superclass.
pub open spec fn send_positions(selector: Seq<char>, receiver: Expr, args: Seq<Expr>, is_super: bool) -> Option<
    Seq<BlockPos>,
>
    decreases args, 1int,
{
    if is_super {
        None
    } else {
        positions(selector, receiver, args)
    }
}

/// Whether a variable is used inside a block that gets a scope of its own.
pub open spec fn used_nested(e: Expr, v: Seq<char>, nested: bool) -> bool
    decreases e, 1int,
{
    match e {
        Expr::Var { name, .. } => nested && name@ == v,
        Expr::Assign { name, value, .. } => (nested && name@ == v) || used_nested(*value, v, nested),
        Expr::Send { receiver, selector, args, is_super, .. } => {
            let p = send_positions(selector@, *receiver, args@, is_super);
            used_at(*receiver, v, nested, dissolves(p, BlockPos::Receiver)) || used_in_args(
                args@,
                p,
                v,
                nested,
                args@.len() as int,
            )
        },
        Expr::Cascade { receiver, segments, .. } => used_nested(*receiver, v, nested) || used_nested_in(
            segments@,
            v,
            nested,
            segments@.len() as int,
        ),
        Expr::Return { value, .. } => used_nested(*value, v, nested),
        Expr::DynArray { elems, .. } => used_nested_in(elems@, v, nested, elems@.len() as int),
        Expr::Block(b) => used_nested_in(b.body@, v, true, b.body@.len() as int),
        _ => false,
    }
}

/// As [`used_nested`], for a receiver or an argument that may be dissolved.
pub open spec fn used_at(e: Expr, v: Seq<char>, nested: bool, dissolved: bool) -> bool
    decreases e, 2int,
{
    match e {
        Expr::Block(b) => if dissolved {
            used_nested_in(b.body@, v, nested, b.body@.len() as int)
        } else {
            used_nested(e, v, nested)
        },
        _ => used_nested(e, v, nested),
    }
}

/// As [`used_nested`], for the first `k` expressions.
pub open spec fn used_nested_in(es: Seq<Expr>, v: Seq<char>, nested: bool, k: int) -> bool
    decreases es, k,
{
    if k <= 0 || k > es.len() {
        false
    } else {
        used_nested_in(es, v, nested, k - 1) || used_nested(es[k - 1], v, nested)
    }
}

/// As [`used_nested`], for the first `k` arguments.
pub open spec fn used_in_args(es: Seq<Expr>, p: Option<Seq<BlockPos>>, v: Seq<char>, nested: bool, k: int) -> bool
    decreases es, k,
{
    if k <= 0 || k > es.len() {
        false
    } else {
        used_in_args(es, p, v, nested, k - 1) || used_at(
            es[k - 1],
            v,
            nested,
            dissolves(p, BlockPos::Arg((k - 1) as usize)),
        )
    }
}

pub open spec fn opt_positions(o: Option<Vec<BlockPos>>) -> Option<Seq<BlockPos>> {
    match o {
        Some(v) => Some(v@),
        None => None,
    }
}

fn one_pos(a: BlockPos) -> (r: Option<Vec<BlockPos>>)
    ensures
        opt_positions(r) == Some(seq![a]),
{
    let mut v: Vec<BlockPos> = Vec::new();
    v.push(a);
    assert(v@ =~= seq![a]);
    Some(v)
}

fn two_pos(a: BlockPos, b: BlockPos) -> (r: Option<Vec<BlockPos>>)
    ensures
        opt_positions(r) == Some(seq![a, b]),
{
    let mut v: Vec<BlockPos> = Vec::new();
    v.push(a);
    v.push(b);
    assert(v@ =~= seq![a, b]);
    Some(v)
}

/// The blocks that a send dissolves.
pub fn inline_block_positions(selector: &str, receiver: &Expr, args: &Vec<Expr>) -> (r: Option<Vec<BlockPos>>)
    ensures
        opt_positions(r) == positions(selector@, *receiver, args@),
    decreases args@, 0int, 0int,
{
    let n: usize = args.len();
    match control(selector) {
        Some(
            Control::IfTrue
            | Control::IfFalse
            | Control::And
            | Control::Or
            | Control::TimesRepeat
            | Control::IfNil,
        ) => if n == 1 && is_literal_block(&args[0], 0, 0) {
            one_pos(BlockPos::Arg(0))
        } else {
            None
        },
        Some(Control::IfTrueIfFalse | Control::IfFalseIfTrue) => if n == 2 && is_literal_block(&args[0], 0, 0)
            && is_literal_block(&args[1], 0, 0) {
            two_pos(BlockPos::Arg(0), BlockPos::Arg(1))
        } else {
            None
        },
        Some(Control::WhileTrueDo | Control::WhileFalseDo) => if n == 1 && is_literal_block(receiver, 0, 0)
            && is_literal_block(&args[0], 0, 0) {
            two_pos(BlockPos::Receiver, BlockPos::Arg(0))
        } else {
            None
        },
        Some(Control::WhileTrue | Control::WhileFalse | Control::Repeat) => if n == 0 && is_literal_block(receiver, 0, 0) {
            one_pos(BlockPos::Receiver)
        } else {
            None
        },
        Some(Control::IfNotNil) => if n == 1 && is_literal_block(&args[0], 0, 1) {
            one_pos(BlockPos::Arg(0))
        } else {
            None
        },
        Some(Control::IfNilIfNotNil) => if n == 2 && is_literal_block(&args[0], 0, 0) && is_literal_block(&args[1], 0, 1) {
            two_pos(BlockPos::Arg(0), BlockPos::Arg(1))
        } else {
            None
        },
        Some(Control::IfNotNilIfNil) => if n == 2 && is_literal_block(&args[0], 0, 1) && is_literal_block(&args[1], 0, 0) {
            two_pos(BlockPos::Arg(0), BlockPos::Arg(1))
        } else {
            None
        },
        Some(Control::ToDo) => {
            if n != 2 {
                return None;
            }
            match &args[1] {
                Expr::Block(b) => {
                    if b.params.len() != 1 {
                        return None;
                    }
                    proof {
                        assert(decreases_to!(args@ => args@[1]));
                    }
                    if to_do_needs_real_send(b.params[0].as_str(), &b.body) {
                        None
                    } else {
                        one_pos(BlockPos::Arg(1))
                    }
                },
                _ => None,
            }
        },
        None => None,
    }
}

/// The positions that a send dissolves; none for a send to the superclass.
fn dissolved_positions(selector: &str, receiver: &Expr, args: &Vec<Expr>, is_super: bool) -> (r: Option<Vec<BlockPos>>)
    ensures
        opt_positions(r) == send_positions(selector@, *receiver, args@, is_super),
    decreases args@, 1int, 0int,
{
    if is_super {
        None
    } else {
        inline_block_positions(selector, receiver, args)
    }
}

/// Whether the statements of a loop's body use the loop variable inside a block that gets a scope
/// of its own.
fn to_do_needs_real_send(loop_var: &str, body: &Vec<Expr>) -> (r: bool)
    ensures
        r == used_nested_in(body@, loop_var@, false, body@.len() as int),
    decreases body@, body@.len(), 1int,
{
    scan_list(body, loop_var, false)
}

fn scan_list(es: &Vec<Expr>, loop_var: &str, nested: bool) -> (r: bool)
    ensures
        r == used_nested_in(es@, loop_var@, nested, es@.len() as int),
    decreases es@, es@.len(), 0int,
{
    let mut found: bool = false;
    let mut i: usize = 0;
    while i < es.len()
        invariant
            i <= es@.len(),
            found == used_nested_in(es@, loop_var@, nested, i as int),
        decreases es@.len() - i,
    {
        proof {
            assert(decreases_to!(es@ => es@[i as int]));
        }
        if !found && scan(&es[i], loop_var, nested) {
            found = true;
        }
        i += 1;
    }
    found
}

fn pos_in(p: &Option<Vec<BlockPos>>, at: BlockPos) -> (r: bool)
    ensures
        r == dissolves(opt_positions(*p), at),
{
    match p {
        Some(v) => {
            let mut i: usize = 0;
            while i < v.len()
                invariant
                    i <= v@.len(),
                    opt_positions(*p) == Some(v@),
                    forall|k: int| 0 <= k < i ==> v@[k] != at,
                decreases v@.len() - i,
            {
                if v[i] == at {
                    assert(v@[i as int] == at);
                    return true;
                }
                i += 1;
            }
            false
        },
        None => false,
    }
}

fn scan(e: &Expr, loop_var: &str, nested: bool) -> (r: bool)
    ensures
        r == used_nested(*e, loop_var@, nested),
    decreases *e, 1int, 0int,
{
    match e {
        Expr::Var { name, .. } => nested && text_eq(name.as_str(), loop_var),
        Expr::Assign { name, value, .. } => (nested && text_eq(name.as_str(), loop_var)) || scan(
            value,
            loop_var,
            nested,
        ),
        Expr::Send { receiver, selector, args, is_super, .. } => {
            let p: Option<Vec<BlockPos>> = dissolved_positions(selector.as_str(), receiver, args, *is_super);
            if scan_at(receiver, loop_var, nested, pos_in(&p, BlockPos::Receiver)) {
                return true;
            }
            scan_args(args, &p, loop_var, nested)
        },
        Expr::Cascade { receiver, segments, .. } => scan(receiver, loop_var, nested) || scan_list(
            segments,
            loop_var,
            nested,
        ),
        Expr::Return { value, .. } => scan(value, loop_var, nested),
        Expr::DynArray { elems, .. } => scan_list(elems, loop_var, nested),
        Expr::Block(b) => scan_list(&b.body, loop_var, true),
        Expr::SelfRef(_) | Expr::CascadeRcvr(_) | Expr::Lit { .. } => false,
    }
}

fn scan_at(e: &Expr, loop_var: &str, nested: bool, dissolved: bool) -> (r: bool)
    ensures
        r == used_at(*e, loop_var@, nested, dissolved),
    decreases *e, 2int, 0int,
{
    match e {
        Expr::Block(b) => if dissolved {
            scan_list(&b.body, loop_var, nested)
        } else {
            scan(e, loop_var, nested)
        },
        _ => scan(e, loop_var, nested),
    }
}

fn scan_args(es: &Vec<Expr>, p: &Option<Vec<BlockPos>>, loop_var: &str, nested: bool) -> (r: bool)
    ensures
        r == used_in_args(es@, opt_positions(*p), loop_var@, nested, es@.len() as int),
    decreases es@, es@.len(), 0int,
{
    let mut found: bool = false;
    let mut i: usize = 0;
    while i < es.len()
        invariant
            i <= es@.len(),
            found == used_in_args(es@, opt_positions(*p), loop_var@, nested, i as int),
        decreases es@.len() - i,
    {
        proof {
            assert(decreases_to!(es@ => es@[i as int]));
        }
        let d: bool = pos_in(p, BlockPos::Arg(i));
        if !found && scan_at(&es[i], loop_var, nested, d) {
            found = true;
        }
        i += 1;
    }
    found
}

// ── The scopes ──────────────────────────────────────────────────────────

/// A scope while the tree is walked: its names are its parameters, its temporaries, and those of
/// the blocks dissolved into it, in order.
pub struct Names {
    pub parent: Option<u32>,
    pub is_method: bool,
    pub argc: nat,
    pub names: Seq<Seq<char>>,
}

/// What the walk collects: the scopes in the order of their blocks, and each use of a name with
/// the scope it stands in.
#[verifier::ext_equal]
pub struct Walk {
    pub scopes: Seq<Names>,
    pub uses: Seq<(u32, Seq<char>)>,
}

/// The views of texts.
pub open spec fn texts(v: Seq<String>) -> Seq<Seq<char>> {
    Seq::new(v.len(), |i: int| v[i]@)
}

/// A block's names: its parameters, then its temporaries.
pub open spec fn names_of(b: BlockNode) -> Seq<Seq<char>> {
    texts(b.params@) + texts(b.temps@)
}

impl Walk {
    pub open spec fn used(self, sid: u32, name: Seq<char>) -> Walk {
        Walk { uses: self.uses.push((sid, name)), ..self }
    }

    /// A dissolved block's names become names of the scope.
    pub open spec fn absorbed(self, sid: u32, b: BlockNode) -> Walk {
        if sid < self.scopes.len() {
            let s = self.scopes[sid as int];
            Walk { scopes: self.scopes.update(sid as int, Names { names: s.names + names_of(b), ..s }), ..self }
        } else {
            self
        }
    }

    /// A block opens a scope.
    pub open spec fn opened(self, sid: u32, b: BlockNode) -> Walk {
        Walk {
            scopes: self.scopes.push(
                Names { parent: Some(sid), is_method: false, argc: b.params@.len(), names: names_of(b) },
            ),
            ..self
        }
    }
}

/// The walk over an expression in a scope.
pub open spec fn walk(e: Expr, sid: u32, w: Walk) -> Walk
    decreases e, 1int,
{
    match e {
        Expr::Var { name, .. } => w.used(sid, name@),
        Expr::Assign { name, value, .. } => walk(*value, sid, w.used(sid, name@)),
        Expr::Send { receiver, selector, args, is_super, .. } => {
            let p = send_positions(selector@, *receiver, args@, is_super);
            walk_args(
                args@,
                p,
                sid,
                walk_at(*receiver, dissolves(p, BlockPos::Receiver), sid, w),
                args@.len() as int,
            )
        },
        Expr::Cascade { receiver, segments, .. } => walk_list(
            segments@,
            sid,
            walk(*receiver, sid, w),
            segments@.len() as int,
        ),
        Expr::DynArray { elems, .. } => walk_list(elems@, sid, w, elems@.len() as int),
        Expr::Return { value, .. } => walk(*value, sid, w),
        Expr::Block(b) => walk_list(b.body@, w.scopes.len() as u32, w.opened(sid, *b), b.body@.len() as int),
        _ => w,
    }
}

/// The walk over a receiver or an argument that may be dissolved.
pub open spec fn walk_at(e: Expr, dissolved: bool, sid: u32, w: Walk) -> Walk
    decreases e, 2int,
{
    if dissolved {
        match e {
            Expr::Block(b) => walk_list(b.body@, sid, w.absorbed(sid, *b), b.body@.len() as int),
            _ => w,
        }
    } else {
        walk(e, sid, w)
    }
}

/// The walk over the first `k` arguments.
pub open spec fn walk_args(es: Seq<Expr>, p: Option<Seq<BlockPos>>, sid: u32, w: Walk, k: int) -> Walk
    decreases es, k,
{
    if k <= 0 || k > es.len() {
        w
    } else {
        walk_at(
            es[k - 1],
            dissolves(p, BlockPos::Arg((k - 1) as usize)),
            sid,
            walk_args(es, p, sid, w, k - 1),
        )
    }
}

/// The walk over the first `k` expressions.
pub open spec fn walk_list(es: Seq<Expr>, sid: u32, w: Walk, k: int) -> Walk
    decreases es, k,
{
    if k <= 0 || k > es.len() {
        w
    } else {
        walk(es[k - 1], sid, walk_list(es, sid, w, k - 1))
    }
}

/// The walk before the first statement: the method's own scope.
pub open spec fn method_scope(m: MethodNode) -> Walk {
    Walk {
        scopes: seq![
            Names {
                parent: None,
                is_method: true,
                argc: m.params@.len(),
                names: texts(m.params@) + texts(m.temps@),
            },
        ],
        uses: Seq::empty(),
    }
}

/// The walk over a method.
pub open spec fn walk_method(m: MethodNode) -> Walk {
    walk_list(m.body@, 0, method_scope(m), m.body@.len() as int)
}

// ── Numbering ───────────────────────────────────────────────────────────

/// Two trees that differ at most in the scope numbers of their blocks.
pub open spec fn same(a: Expr, b: Expr) -> bool
    decreases a, 0int,
{
    match (a, b) {
        (Expr::Assign { name: n, value: v, span: s }, Expr::Assign { name: n2, value: v2, span: s2 }) => n == n2 && s
            == s2 && same(*v, *v2),
        (
            Expr::Send { receiver: r, selector: sel, args: aa, is_super: su, span: s },
            Expr::Send { receiver: r2, selector: sel2, args: aa2, is_super: su2, span: s2 },
        ) => sel == sel2 && su == su2 && s == s2 && same(*r, *r2) && same_list(aa@, aa2@, aa@.len() as int) && aa@.len()
            == aa2@.len(),
        (
            Expr::Cascade { receiver: r, segments: g, span: s },
            Expr::Cascade { receiver: r2, segments: g2, span: s2 },
        ) => s == s2 && same(*r, *r2) && same_list(g@, g2@, g@.len() as int) && g@.len() == g2@.len(),
        (Expr::DynArray { elems: g, span: s }, Expr::DynArray { elems: g2, span: s2 }) => s == s2 && same_list(
            g@,
            g2@,
            g@.len() as int,
        ) && g@.len() == g2@.len(),
        (Expr::Return { value: v, span: s }, Expr::Return { value: v2, span: s2 }) => s == s2 && same(*v, *v2),
        (Expr::Block(x), Expr::Block(y)) => x.params == y.params && x.temps == y.temps && x.span == y.span
            && x.body@.len() == y.body@.len() && same_list(x.body@, y.body@, x.body@.len() as int),
        _ => a == b,
    }
}

/// The first `k` trees agree.
pub open spec fn same_list(a: Seq<Expr>, b: Seq<Expr>, k: int) -> bool
    decreases a, k,
{
    if k <= 0 || k > a.len() {
        true
    } else {
        same_list(a, b, k - 1) && same(a[k - 1], b[k - 1])
    }
}

/// Every block that opens a scope carries that scope's number.
pub open spec fn numbered(e: Expr, sid: u32, w: Walk) -> bool
    decreases e, 1int,
{
    match e {
        Expr::Assign { name, value, .. } => numbered(*value, sid, w.used(sid, name@)),
        Expr::Send { receiver, selector, args, is_super, .. } => {
            let p = send_positions(selector@, *receiver, args@, is_super);
            numbered_at(*receiver, dissolves(p, BlockPos::Receiver), sid, w) && numbered_args(
                args@,
                p,
                sid,
                walk_at(*receiver, dissolves(p, BlockPos::Receiver), sid, w),
                args@.len() as int,
            )
        },
        Expr::Cascade { receiver, segments, .. } => numbered(*receiver, sid, w) && numbered_list(
            segments@,
            sid,
            walk(*receiver, sid, w),
            segments@.len() as int,
        ),
        Expr::DynArray { elems, .. } => numbered_list(elems@, sid, w, elems@.len() as int),
        Expr::Return { value, .. } => numbered(*value, sid, w),
        Expr::Block(b) => b.scope_id == w.scopes.len() && numbered_list(
            b.body@,
            w.scopes.len() as u32,
            w.opened(sid, *b),
            b.body@.len() as int,
        ),
        _ => true,
    }
}

pub open spec fn numbered_at(e: Expr, dissolved: bool, sid: u32, w: Walk) -> bool
    decreases e, 2int,
{
    if dissolved {
        match e {
            Expr::Block(b) => numbered_list(b.body@, sid, w.absorbed(sid, *b), b.body@.len() as int),
            _ => true,
        }
    } else {
        numbered(e, sid, w)
    }
}

pub open spec fn numbered_args(es: Seq<Expr>, p: Option<Seq<BlockPos>>, sid: u32, w: Walk, k: int) -> bool
    decreases es, k,
{
    if k <= 0 || k > es.len() {
        true
    } else {
        numbered_args(es, p, sid, w, k - 1) && numbered_at(
            es[k - 1],
            dissolves(p, BlockPos::Arg((k - 1) as usize)),
            sid,
            walk_args(es, p, sid, w, k - 1),
        )
    }
}

pub open spec fn numbered_list(es: Seq<Expr>, sid: u32, w: Walk, k: int) -> bool
    decreases es, k,
{
    if k <= 0 || k > es.len() {
        true
    } else {
        numbered_list(es, sid, w, k - 1) && numbered(es[k - 1], sid, walk_list(es, sid, w, k - 1))
    }
}

// Numbers play no part in what is dissolved and walked.

proof fn lemma_positions_same(sel: Seq<char>, r: Expr, a: Seq<Expr>, r2: Expr, b: Seq<Expr>)
    requires
        same(r, r2),
        a.len() == b.len(),
        same_list(a, b, a.len() as int),
    ensures
        positions(sel, r, a) == positions(sel, r2, b),
    decreases a, 0int, 0int,
{
    if a.len() >= 1 {
        lemma_same_at(a, b, a.len() as int, 0);
    }
    if a.len() >= 2 {
        lemma_same_at(a, b, a.len() as int, 1);
        match (a[1], b[1]) {
            (Expr::Block(x), Expr::Block(y)) => {
                if x.params@.len() == 1 {
                    assert(decreases_to!(a => a[1]));
                    lemma_used_list_same(x.body@, y.body@, x.params@[0]@, false, x.body@.len() as int);
                }
            },
            _ => {},
        }
    }
}

proof fn lemma_same_at(a: Seq<Expr>, b: Seq<Expr>, k: int, i: int)
    requires
        0 <= i < k <= a.len(),
        same_list(a, b, k),
    ensures
        same(a[i], b[i]),
    decreases k,
{
    if i < k - 1 {
        lemma_same_at(a, b, k - 1, i);
    }
}

proof fn lemma_used_same(a: Expr, b: Expr, v: Seq<char>, nested: bool)
    requires
        same(a, b),
    ensures
        used_nested(a, v, nested) == used_nested(b, v, nested),
    decreases a, 1int, 0int,
{
    match (a, b) {
        (Expr::Assign { value: x, .. }, Expr::Assign { value: y, .. }) => {
            lemma_used_same(*x, *y, v, nested);
        },
        (
            Expr::Send { receiver: r, selector: sel, args: aa, is_super: su, .. },
            Expr::Send { receiver: r2, args: aa2, .. },
        ) => {
            lemma_positions_same(sel@, *r, aa@, *r2, aa2@);
            let p = send_positions(sel@, *r, aa@, su);
            assert(p == send_positions(sel@, *r2, aa2@, su));
            lemma_used_at_same(*r, *r2, v, nested, dissolves(p, BlockPos::Receiver));
            lemma_used_args_same(aa@, aa2@, p, v, nested, aa@.len() as int);
        },
        (Expr::Cascade { receiver: r, segments: g, .. }, Expr::Cascade { receiver: r2, segments: g2, .. }) => {
            lemma_used_same(*r, *r2, v, nested);
            lemma_used_list_same(g@, g2@, v, nested, g@.len() as int);
        },
        (Expr::DynArray { elems: g, .. }, Expr::DynArray { elems: g2, .. }) => {
            lemma_used_list_same(g@, g2@, v, nested, g@.len() as int);
        },
        (Expr::Return { value: x, .. }, Expr::Return { value: y, .. }) => {
            lemma_used_same(*x, *y, v, nested);
        },
        (Expr::Block(x), Expr::Block(y)) => {
            lemma_used_list_same(x.body@, y.body@, v, true, x.body@.len() as int);
        },
        _ => {},
    }
}

proof fn lemma_used_at_same(a: Expr, b: Expr, v: Seq<char>, nested: bool, dissolved: bool)
    requires
        same(a, b),
    ensures
        used_at(a, v, nested, dissolved) == used_at(b, v, nested, dissolved),
    decreases a, 2int, 0int,
{
    lemma_used_same(a, b, v, nested);
    match (a, b) {
        (Expr::Block(x), Expr::Block(y)) => {
            lemma_used_list_same(x.body@, y.body@, v, nested, x.body@.len() as int);
        },
        _ => {},
    }
}

proof fn lemma_used_list_same(a: Seq<Expr>, b: Seq<Expr>, v: Seq<char>, nested: bool, k: int)
    requires
        a.len() == b.len(),
        same_list(a, b, a.len() as int),
    ensures
        used_nested_in(a, v, nested, k) == used_nested_in(b, v, nested, k),
    decreases a, k, 0int,
{
    if 0 < k <= a.len() {
        lemma_same_at(a, b, a.len() as int, k - 1);
        lemma_used_list_same(a, b, v, nested, k - 1);
        lemma_used_same(a[k - 1], b[k - 1], v, nested);
    }
}

proof fn lemma_used_args_same(a: Seq<Expr>, b: Seq<Expr>, p: Option<Seq<BlockPos>>, v: Seq<char>, nested: bool, k: int)
    requires
        a.len() == b.len(),
        same_list(a, b, a.len() as int),
    ensures
        used_in_args(a, p, v, nested, k) == used_in_args(b, p, v, nested, k),
    decreases a, k, 0int,
{
    if 0 < k <= a.len() {
        lemma_same_at(a, b, a.len() as int, k - 1);
        lemma_used_args_same(a, b, p, v, nested, k - 1);
        lemma_used_at_same(a[k - 1], b[k - 1], v, nested, dissolves(p, BlockPos::Arg((k - 1) as usize)));
    }
}

// ── The walk ────────────────────────────────────────────────────────────

struct ScopeBuilder {
    parent: Option<u32>,
    is_method: bool,
    argc: usize,
    names: Vec<String>,
}

spec fn builder_view(b: ScopeBuilder) -> Names {
    Names { parent: b.parent, is_method: b.is_method, argc: b.argc as nat, names: texts(b.names@) }
}

spec fn walk_view(builders: Seq<ScopeBuilder>, uses: Seq<(u32, String)>) -> Walk {
    Walk {
        scopes: Seq::new(builders.len(), |i: int| builder_view(builders[i])),
        uses: Seq::new(uses.len(), |i: int| (uses[i].0, uses[i].1@)),
    }
}

proof fn lemma_texts_push(v: Seq<String>, s: String)
    ensures
        texts(v.push(s)) == texts(v).push(s@),
{
    assert(texts(v.push(s)) =~= texts(v).push(s@));
}

/// Adds a block's names.
fn extend_names(names: &mut Vec<String>, params: &Vec<String>, temps: &Vec<String>)
    ensures
        texts(final(names)@) == texts(old(names)@) + texts(params@) + texts(temps@),
{
    let mut i: usize = 0;
    assert(texts(old(names)@) + texts(params@.take(0)) =~= texts(old(names)@));
    while i < params.len()
        invariant
            i <= params@.len(),
            texts(names@) == texts(old(names)@) + texts(params@.take(i as int)),
        decreases params@.len() - i,
    {
        proof {
            lemma_texts_push(names@, params@[i as int]);
            assert(params@.take(i + 1) =~= params@.take(i as int).push(params@[i as int]));
            lemma_texts_push(params@.take(i as int), params@[i as int]);
        }
        names.push(params[i].clone());
        assert(texts(names@) =~= texts(old(names)@) + texts(params@.take(i + 1)));
        i += 1;
    }
    assert(params@.take(i as int) =~= params@);
    let ghost half = names@;
    assert(texts(half) + texts(temps@.take(0)) =~= texts(half));
    let mut k: usize = 0;
    while k < temps.len()
        invariant
            k <= temps@.len(),
            texts(names@) == texts(half) + texts(temps@.take(k as int)),
        decreases temps@.len() - k,
    {
        proof {
            lemma_texts_push(names@, temps@[k as int]);
            assert(temps@.take(k + 1) =~= temps@.take(k as int).push(temps@[k as int]));
            lemma_texts_push(temps@.take(k as int), temps@[k as int]);
        }
        names.push(temps[k].clone());
        assert(texts(names@) =~= texts(half) + texts(temps@.take(k + 1)));
        k += 1;
    }
    assert(temps@.take(k as int) =~= temps@);
}

/// The walk never loses a scope.
pub(crate) proof fn lemma_walk_grows(e: Expr, sid: u32, w: Walk)
    ensures
        walk(e, sid, w).scopes.len() >= w.scopes.len(),
    decreases e, 1int, 0int,
{
    match e {
        Expr::Assign { name, value, .. } => {
            lemma_walk_grows(*value, sid, w.used(sid, name@));
        },
        Expr::Send { receiver, selector, args, is_super, .. } => {
            let p = send_positions(selector@, *receiver, args@, is_super);
            let d = dissolves(p, BlockPos::Receiver);
            lemma_walk_at_grows(*receiver, d, sid, w);
            lemma_walk_args_grows(args@, p, sid, walk_at(*receiver, d, sid, w), args@.len() as int);
        },
        Expr::Cascade { receiver, segments, .. } => {
            lemma_walk_grows(*receiver, sid, w);
            lemma_walk_list_grows(segments@, sid, walk(*receiver, sid, w), segments@.len() as int);
        },
        Expr::DynArray { elems, .. } => {
            lemma_walk_list_grows(elems@, sid, w, elems@.len() as int);
        },
        Expr::Return { value, .. } => {
            lemma_walk_grows(*value, sid, w);
        },
        Expr::Block(b) => {
            lemma_walk_list_grows(b.body@, w.scopes.len() as u32, w.opened(sid, *b), b.body@.len() as int);
        },
        _ => {},
    }
}

pub(crate) proof fn lemma_walk_at_grows(e: Expr, dissolved: bool, sid: u32, w: Walk)
    ensures
        walk_at(e, dissolved, sid, w).scopes.len() >= w.scopes.len(),
    decreases e, 2int, 0int,
{
    if dissolved {
        match e {
            Expr::Block(b) => {
                lemma_walk_list_grows(b.body@, sid, w.absorbed(sid, *b), b.body@.len() as int);
            },
            _ => {},
        }
    } else {
        lemma_walk_grows(e, sid, w);
    }
}

pub(crate) proof fn lemma_walk_args_grows(es: Seq<Expr>, p: Option<Seq<BlockPos>>, sid: u32, w: Walk, k: int)
    ensures
        walk_args(es, p, sid, w, k).scopes.len() >= w.scopes.len(),
    decreases es, k, 0int,
{
    if 0 < k <= es.len() {
        lemma_walk_args_grows(es, p, sid, w, k - 1);
        lemma_walk_at_grows(
            es[k - 1],
            dissolves(p, BlockPos::Arg((k - 1) as usize)),
            sid,
            walk_args(es, p, sid, w, k - 1),
        );
    }
}

pub(crate) proof fn lemma_walk_list_grows(es: Seq<Expr>, sid: u32, w: Walk, k: int)
    ensures
        walk_list(es, sid, w, k).scopes.len() >= w.scopes.len(),
    decreases es, k, 0int,
{
    if 0 < k <= es.len() {
        lemma_walk_list_grows(es, sid, w, k - 1);
        lemma_walk_grows(es[k - 1], sid, walk_list(es, sid, w, k - 1));
    }
}

/// The names of a dissolved block join the scope's.
fn absorb(b: &BlockNode, sid: u32, builders: &mut Vec<ScopeBuilder>, Ghost(uses): Ghost<Seq<(u32, String)>>)
    requires
        sid < old(builders)@.len(),
    ensures
        walk_view(final(builders)@, uses) == walk_view(old(builders)@, uses).absorbed(sid, *b),
        final(builders)@.len() == old(builders)@.len(),
{
    let ghost before = builders@;
    let scope: &mut ScopeBuilder = &mut builders[sid as usize];
    extend_names(&mut scope.names, &b.params, &b.temps);
    proof {
        let w = walk_view(before, uses);
        let s = w.scopes[sid as int];
        assert(builder_view(builders@[sid as int]).names =~= s.names + names_of(*b));
        assert(walk_view(builders@, uses).scopes =~= w.absorbed(sid, *b).scopes);
    }
}

/// A block opens a scope. Returns its number.
fn open_scope(b: &BlockNode, sid: u32, builders: &mut Vec<ScopeBuilder>, Ghost(uses): Ghost<Seq<(u32, String)>>) -> (id:
    u32)
    requires
        old(builders)@.len() < u32::MAX,
    ensures
        walk_view(final(builders)@, uses) == walk_view(old(builders)@, uses).opened(sid, *b),
        id == old(builders)@.len(),
        final(builders)@.len() == old(builders)@.len() + 1,
{
    let id: u32 = builders.len() as u32;
    let mut names: Vec<String> = Vec::new();
    extend_names(&mut names, &b.params, &b.temps);
    assert(texts(names@) =~= names_of(*b));
    builders.push(ScopeBuilder { parent: Some(sid), is_method: false, argc: b.params.len(), names });
    assert(walk_view(builders@, uses).scopes =~= walk_view(old(builders)@, uses).opened(sid, *b).scopes);
    id
}

proof fn lemma_use(builders: Seq<ScopeBuilder>, uses: Seq<(u32, String)>, sid: u32, name: String)
    ensures
        walk_view(builders, uses.push((sid, name))) == walk_view(builders, uses).used(sid, name@),
{
    assert(walk_view(builders, uses.push((sid, name))).uses =~= walk_view(builders, uses).used(sid, name@).uses);
    assert(walk_view(builders, uses.push((sid, name))).scopes =~= walk_view(builders, uses).scopes);
}

proof fn lemma_send_same(sel: Seq<char>, su: bool, r: Expr, a: Seq<Expr>, r2: Expr, b: Seq<Expr>)
    requires
        same(r, r2),
        a.len() == b.len(),
        same_list(a, b, a.len() as int),
    ensures
        send_positions(sel, r, a, su) == send_positions(sel, r2, b, su),
{
    lemma_positions_same(sel, r, a, r2, b);
}

/// Walks an expression, numbering the blocks that open scopes.
#[verifier::rlimit(40)]
fn walk_expr(e: &mut Expr, sid: u32, builders: &mut Vec<ScopeBuilder>, uses: &mut Vec<(u32, String)>)
    requires
        sid < old(builders)@.len(),
        walk(*old(e), sid, walk_view(old(builders)@, old(uses)@)).scopes.len() <= u32::MAX,
    ensures
        same(*old(e), *final(e)),
        walk_view(final(builders)@, final(uses)@) == walk(*old(e), sid, walk_view(old(builders)@, old(uses)@)),
        walk_view(final(builders)@, final(uses)@) == walk(*final(e), sid, walk_view(old(builders)@, old(uses)@)),
        numbered(*final(e), sid, walk_view(old(builders)@, old(uses)@)),
        final(builders)@.len() >= old(builders)@.len(),
    decreases *old(e), 1int, 0int,
{
    let ghost w0 = walk_view(builders@, uses@);
    let ghost e0 = *e;
    match e {
        Expr::SelfRef(_) | Expr::CascadeRcvr(_) | Expr::Lit { .. } => {},
        Expr::Var { name, .. } => {
            proof {
                lemma_use(builders@, uses@, sid, *name);
            }
            uses.push((sid, name.clone()));
        },
        Expr::Assign { name, value, .. } => {
            proof {
                lemma_use(builders@, uses@, sid, *name);
            }
            uses.push((sid, name.clone()));
            walk_expr(&mut **value, sid, builders, uses);
        },
        Expr::Send { receiver, selector, args, is_super, .. } => {
            let p: Option<Vec<BlockPos>> = dissolved_positions(selector.as_str(), &**receiver, &*args, *is_super);
            let ghost (r0, a0) = (**receiver, args@);
            let ghost pp = opt_positions(p);
            let d: bool = pos_in(&p, BlockPos::Receiver);
            proof {
                lemma_walk_args_grows(a0, pp, sid, walk_at(r0, d, sid, w0), a0.len() as int);
            }
            walk_place(&mut **receiver, d, sid, builders, uses);
            walk_arg_list(args, &p, sid, builders, uses);
            proof {
                lemma_send_same(selector@, *is_super, r0, a0, **receiver, args@);
            }
        },
        Expr::Cascade { receiver, segments, .. } => {
            let ghost (r0, g0) = (**receiver, segments@);
            proof {
                lemma_walk_list_grows(g0, sid, walk(r0, sid, w0), g0.len() as int);
            }
            walk_expr(&mut **receiver, sid, builders, uses);
            walk_block_body(segments, sid, builders, uses);
        },
        Expr::DynArray { elems, .. } => {
            walk_block_body(elems, sid, builders, uses);
        },
        Expr::Return { value, .. } => {
            walk_expr(&mut **value, sid, builders, uses);
        },
        Expr::Block(blk) => {
            proof {
                lemma_walk_list_grows(blk.body@, w0.scopes.len() as u32, w0.opened(sid, **blk), blk.body@.len() as int);
            }
            let id: u32 = open_scope(&**blk, sid, builders, Ghost(uses@));
            blk.scope_id = id;
            walk_block_body(&mut blk.body, id, builders, uses);
            assert(w0.opened(sid, **blk).scopes =~= w0.opened(sid, *e0->Block_0).scopes);
        },
    }
}

/// A receiver or an argument that may be dissolved.
#[verifier::rlimit(40)]
fn walk_place(e: &mut Expr, dissolved: bool, sid: u32, builders: &mut Vec<ScopeBuilder>, uses: &mut Vec<(u32, String)>)
    requires
        sid < old(builders)@.len(),
        walk_at(*old(e), dissolved, sid, walk_view(old(builders)@, old(uses)@)).scopes.len() <= u32::MAX,
    ensures
        same(*old(e), *final(e)),
        walk_view(final(builders)@, final(uses)@) == walk_at(
            *old(e),
            dissolved,
            sid,
            walk_view(old(builders)@, old(uses)@),
        ),
        walk_view(final(builders)@, final(uses)@) == walk_at(
            *final(e),
            dissolved,
            sid,
            walk_view(old(builders)@, old(uses)@),
        ),
        numbered_at(*final(e), dissolved, sid, walk_view(old(builders)@, old(uses)@)),
        final(builders)@.len() >= old(builders)@.len(),
    decreases *old(e), 2int, 0int,
{
    let ghost w0 = walk_view(builders@, uses@);
    let ghost e0 = *e;
    if dissolved {
        match e {
            Expr::Block(b) => {
                absorb(&**b, sid, builders, Ghost(uses@));
                walk_block_body(&mut b.body, sid, builders, uses);
                assert(w0.absorbed(sid, **b).scopes =~= w0.absorbed(sid, *e0->Block_0).scopes);
            },
            _ => {
                proof {
                    lemma_same_refl(*e);
                }
            },
        }
    } else {
        walk_expr(e, sid, builders, uses);
    }
}

proof fn lemma_same_refl(e: Expr)
    ensures
        same(e, e),
    decreases e, 1int,
{
    match e {
        Expr::Assign { value, .. } => {
            lemma_same_refl(*value);
        },
        Expr::Send { receiver, args, .. } => {
            lemma_same_refl(*receiver);
            lemma_same_list_refl(args@, args@.len() as int);
        },
        Expr::Cascade { receiver, segments, .. } => {
            lemma_same_refl(*receiver);
            lemma_same_list_refl(segments@, segments@.len() as int);
        },
        Expr::DynArray { elems, .. } => {
            lemma_same_list_refl(elems@, elems@.len() as int);
        },
        Expr::Return { value, .. } => {
            lemma_same_refl(*value);
        },
        Expr::Block(b) => {
            lemma_same_list_refl(b.body@, b.body@.len() as int);
        },
        _ => {},
    }
}

proof fn lemma_same_list_refl(es: Seq<Expr>, k: int)
    ensures
        same_list(es, es, k),
    decreases es, k,
{
    if 0 < k <= es.len() {
        lemma_same_list_refl(es, k - 1);
        lemma_same_refl(es[k - 1]);
    }
}

// What was walked of a list does not depend on what follows.

proof fn lemma_list_prefix(a: Seq<Expr>, b: Seq<Expr>, o: Seq<Expr>, sid: u32, w: Walk, k: int)
    requires
        0 <= k <= a.len() == b.len(),
        forall|i: int| 0 <= i < k ==> a[i] == b[i],
    ensures
        walk_list(a, sid, w, k) == walk_list(b, sid, w, k),
        numbered_list(a, sid, w, k) == numbered_list(b, sid, w, k),
        same_list(o, a, k) == same_list(o, b, k),
    decreases k,
{
    if k > 0 {
        lemma_list_prefix(a, b, o, sid, w, k - 1);
    }
}

proof fn lemma_args_prefix(
    a: Seq<Expr>,
    b: Seq<Expr>,
    o: Seq<Expr>,
    p: Option<Seq<BlockPos>>,
    sid: u32,
    w: Walk,
    k: int,
)
    requires
        0 <= k <= a.len() == b.len(),
        forall|i: int| 0 <= i < k ==> a[i] == b[i],
    ensures
        walk_args(a, p, sid, w, k) == walk_args(b, p, sid, w, k),
        numbered_args(a, p, sid, w, k) == numbered_args(b, p, sid, w, k),
        same_list(o, a, k) == same_list(o, b, k),
    decreases k,
{
    if k > 0 {
        lemma_args_prefix(a, b, o, p, sid, w, k - 1);
    }
}

proof fn lemma_list_steps(es: Seq<Expr>, sid: u32, w: Walk, i: int, k: int)
    requires
        0 <= i <= k <= es.len(),
    ensures
        walk_list(es, sid, w, i).scopes.len() <= walk_list(es, sid, w, k).scopes.len(),
    decreases k - i,
{
    if i < k {
        lemma_list_steps(es, sid, w, i, k - 1);
        lemma_walk_grows(es[k - 1], sid, walk_list(es, sid, w, k - 1));
    }
}

proof fn lemma_args_steps(es: Seq<Expr>, p: Option<Seq<BlockPos>>, sid: u32, w: Walk, i: int, k: int)
    requires
        0 <= i <= k <= es.len(),
    ensures
        walk_args(es, p, sid, w, i).scopes.len() <= walk_args(es, p, sid, w, k).scopes.len(),
    decreases k - i,
{
    if i < k {
        lemma_args_steps(es, p, sid, w, i, k - 1);
        lemma_walk_at_grows(
            es[k - 1],
            dissolves(p, BlockPos::Arg((k - 1) as usize)),
            sid,
            walk_args(es, p, sid, w, k - 1),
        );
    }
}

/// Walks statements.
#[verifier::rlimit(40)]
fn walk_block_body(body: &mut Vec<Expr>, sid: u32, builders: &mut Vec<ScopeBuilder>, uses: &mut Vec<(u32, String)>)
    requires
        sid < old(builders)@.len(),
        walk_list(old(body)@, sid, walk_view(old(builders)@, old(uses)@), old(body)@.len() as int).scopes.len()
            <= u32::MAX,
    ensures
        final(body)@.len() == old(body)@.len(),
        same_list(old(body)@, final(body)@, old(body)@.len() as int),
        walk_view(final(builders)@, final(uses)@) == walk_list(
            old(body)@,
            sid,
            walk_view(old(builders)@, old(uses)@),
            old(body)@.len() as int,
        ),
        walk_view(final(builders)@, final(uses)@) == walk_list(
            final(body)@,
            sid,
            walk_view(old(builders)@, old(uses)@),
            old(body)@.len() as int,
        ),
        numbered_list(final(body)@, sid, walk_view(old(builders)@, old(uses)@), old(body)@.len() as int),
        final(builders)@.len() >= old(builders)@.len(),
    decreases old(body)@, old(body)@.len(), 0int,
{
    let ghost w0 = walk_view(builders@, uses@);
    let ghost b0 = body@;
    let n: usize = body.len();
    let mut i: usize = 0;
    while i < n
        invariant
            i <= n,
            n == body@.len(),
            b0 == old(body)@,
            n == b0.len(),
            sid < builders@.len(),
            old(builders)@.len() <= builders@.len(),
            w0 == walk_view(old(builders)@, old(uses)@),
            walk_list(b0, sid, w0, n as int).scopes.len() <= u32::MAX,
            same_list(b0, body@, i as int),
            walk_view(builders@, uses@) == walk_list(b0, sid, w0, i as int),
            walk_view(builders@, uses@) == walk_list(body@, sid, w0, i as int),
            numbered_list(body@, sid, w0, i as int),
            forall|k: int| i <= k < n ==> #[trigger] body@[k] == b0[k],
        decreases n - i,
    {
        let ghost before = body@;
        proof {
            assert(decreases_to!(old(body)@ => old(body)@[i as int]));
            lemma_list_steps(b0, sid, w0, i + 1, n as int);
            assert(body@[i as int] == b0[i as int]);
        }
        walk_expr(&mut body[i], sid, builders, uses);
        proof {
            lemma_list_prefix(before, body@, b0, sid, w0, i as int);
        }
        i += 1;
    }
}

/// Walks arguments.
#[verifier::rlimit(40)]
fn walk_arg_list(
    args: &mut Vec<Expr>,
    p: &Option<Vec<BlockPos>>,
    sid: u32,
    builders: &mut Vec<ScopeBuilder>,
    uses: &mut Vec<(u32, String)>,
)
    requires
        sid < old(builders)@.len(),
        walk_args(old(args)@, opt_positions(*p), sid, walk_view(old(builders)@, old(uses)@), old(args)@.len() as int).scopes.len()
            <= u32::MAX,
    ensures
        final(args)@.len() == old(args)@.len(),
        same_list(old(args)@, final(args)@, old(args)@.len() as int),
        walk_view(final(builders)@, final(uses)@) == walk_args(
            old(args)@,
            opt_positions(*p),
            sid,
            walk_view(old(builders)@, old(uses)@),
            old(args)@.len() as int,
        ),
        walk_view(final(builders)@, final(uses)@) == walk_args(
            final(args)@,
            opt_positions(*p),
            sid,
            walk_view(old(builders)@, old(uses)@),
            old(args)@.len() as int,
        ),
        numbered_args(
            final(args)@,
            opt_positions(*p),
            sid,
            walk_view(old(builders)@, old(uses)@),
            old(args)@.len() as int,
        ),
        final(builders)@.len() >= old(builders)@.len(),
    decreases old(args)@, old(args)@.len(), 0int,
{
    let ghost w0 = walk_view(builders@, uses@);
    let ghost b0 = args@;
    let ghost pp = opt_positions(*p);
    let n: usize = args.len();
    let mut i: usize = 0;
    while i < n
        invariant
            i <= n,
            n == args@.len(),
            b0 == old(args)@,
            n == b0.len(),
            pp == opt_positions(*p),
            sid < builders@.len(),
            old(builders)@.len() <= builders@.len(),
            w0 == walk_view(old(builders)@, old(uses)@),
            walk_args(b0, pp, sid, w0, n as int).scopes.len() <= u32::MAX,
            same_list(b0, args@, i as int),
            walk_view(builders@, uses@) == walk_args(b0, pp, sid, w0, i as int),
            walk_view(builders@, uses@) == walk_args(args@, pp, sid, w0, i as int),
            numbered_args(args@, pp, sid, w0, i as int),
            forall|k: int| i <= k < n ==> #[trigger] args@[k] == b0[k],
        decreases n - i,
    {
        let ghost before = args@;
        proof {
            assert(decreases_to!(old(args)@ => old(args)@[i as int]));
            lemma_args_steps(b0, pp, sid, w0, i + 1, n as int);
            assert(args@[i as int] == b0[i as int]);
        }
        let d: bool = pos_in(p, BlockPos::Arg(i));
        walk_place(&mut args[i], d, sid, builders, uses);
        proof {
            lemma_args_prefix(before, args@, b0, pp, sid, w0, i as int);
        }
        i += 1;
    }
}

// ── Captures ────────────────────────────────────────────────────────────

/// Each scope's parent stands before it, and uses stand in scopes.
pub open spec fn well_nested(w: Walk) -> bool {
    &&& forall|i: int| 0 <= i < w.scopes.len() ==> ((#[trigger] w.scopes[i]).parent matches Some(p) ==> p < i)
    &&& forall|i: int| 0 <= i < w.uses.len() ==> (#[trigger] w.uses[i]).0 < w.scopes.len()
}

proof fn lemma_nested(e: Expr, sid: u32, w: Walk)
    requires
        well_nested(w),
        sid < w.scopes.len(),
        walk(e, sid, w).scopes.len() <= u32::MAX,
    ensures
        well_nested(walk(e, sid, w)),
    decreases e, 1int, 0int,
{
    match e {
        Expr::Assign { name, value, .. } => {
            lemma_nested(*value, sid, w.used(sid, name@));
        },
        Expr::Send { receiver, selector, args, is_super, .. } => {
            let p = send_positions(selector@, *receiver, args@, is_super);
            let d = dissolves(p, BlockPos::Receiver);
            lemma_walk_at_grows(*receiver, d, sid, w);
            lemma_walk_args_grows(args@, p, sid, walk_at(*receiver, d, sid, w), args@.len() as int);
            lemma_nested_at(*receiver, d, sid, w);
            lemma_nested_args(args@, p, sid, walk_at(*receiver, d, sid, w), args@.len() as int);
        },
        Expr::Cascade { receiver, segments, .. } => {
            lemma_walk_grows(*receiver, sid, w);
            lemma_walk_list_grows(segments@, sid, walk(*receiver, sid, w), segments@.len() as int);
            lemma_nested(*receiver, sid, w);
            lemma_nested_list(segments@, sid, walk(*receiver, sid, w), segments@.len() as int);
        },
        Expr::DynArray { elems, .. } => {
            lemma_nested_list(elems@, sid, w, elems@.len() as int);
        },
        Expr::Return { value, .. } => {
            lemma_nested(*value, sid, w);
        },
        Expr::Block(b) => {
            let w1 = w.opened(sid, *b);
            lemma_walk_list_grows(b.body@, w.scopes.len() as u32, w1, b.body@.len() as int);
            assert(well_nested(w1));
            lemma_nested_list(b.body@, w.scopes.len() as u32, w1, b.body@.len() as int);
        },
        _ => {},
    }
}

proof fn lemma_nested_at(e: Expr, dissolved: bool, sid: u32, w: Walk)
    requires
        well_nested(w),
        sid < w.scopes.len(),
        walk_at(e, dissolved, sid, w).scopes.len() <= u32::MAX,
    ensures
        well_nested(walk_at(e, dissolved, sid, w)),
    decreases e, 2int, 0int,
{
    if dissolved {
        match e {
            Expr::Block(b) => {
                let w1 = w.absorbed(sid, *b);
                assert forall|i: int| 0 <= i < w1.scopes.len() implies ((#[trigger] w1.scopes[i]).parent matches Some(
                    p,
                ) ==> p < i) by {
                    assert(w1.scopes[i].parent == w.scopes[i].parent);
                }
                lemma_nested_list(b.body@, sid, w1, b.body@.len() as int);
            },
            _ => {},
        }
    } else {
        lemma_nested(e, sid, w);
    }
}

proof fn lemma_nested_args(es: Seq<Expr>, p: Option<Seq<BlockPos>>, sid: u32, w: Walk, k: int)
    requires
        well_nested(w),
        sid < w.scopes.len(),
        walk_args(es, p, sid, w, k).scopes.len() <= u32::MAX,
    ensures
        well_nested(walk_args(es, p, sid, w, k)),
    decreases es, k, 0int,
{
    if 0 < k <= es.len() {
        let d = dissolves(p, BlockPos::Arg((k - 1) as usize));
        lemma_walk_args_grows(es, p, sid, w, k - 1);
        lemma_walk_at_grows(es[k - 1], d, sid, walk_args(es, p, sid, w, k - 1));
        lemma_nested_args(es, p, sid, w, k - 1);
        lemma_nested_at(es[k - 1], d, sid, walk_args(es, p, sid, w, k - 1));
    }
}

proof fn lemma_nested_list(es: Seq<Expr>, sid: u32, w: Walk, k: int)
    requires
        well_nested(w),
        sid < w.scopes.len(),
        walk_list(es, sid, w, k).scopes.len() <= u32::MAX,
    ensures
        well_nested(walk_list(es, sid, w, k)),
    decreases es, k, 0int,
{
    if 0 < k <= es.len() {
        lemma_walk_list_grows(es, sid, w, k - 1);
        lemma_walk_grows(es[k - 1], sid, walk_list(es, sid, w, k - 1));
        lemma_nested_list(es, sid, w, k - 1);
        lemma_nested(es[k - 1], sid, walk_list(es, sid, w, k - 1));
    }
}

/// The index of a name's first occurrence, from `i` on; the length where there is none.
pub open spec fn first_index(names: Seq<Seq<char>>, name: Seq<char>, i: int) -> int
    decreases names.len() - i,
{
    if i < 0 || i >= names.len() {
        names.len() as int
    } else if names[i] == name {
        i
    } else {
        first_index(names, name, i + 1)
    }
}

/// Whether a scope declares a name.
pub open spec fn declares(n: Names, name: Seq<char>) -> bool {
    first_index(n.names, name, 0) < n.names.len()
}

/// The innermost scope around `sid` that declares a name.
pub open spec fn defining(scopes: Seq<Names>, sid: u32, name: Seq<char>) -> Option<u32>
    decreases sid,
{
    if sid >= scopes.len() {
        None
    } else if declares(scopes[sid as int], name) {
        Some(sid)
    } else {
        match scopes[sid as int].parent {
            Some(p) => if p < sid {
                defining(scopes, p, name)
            } else {
                None
            },
            None => None,
        }
    }
}

/// The use of a name from another scope than the one that declares it.
pub open spec fn crosses(w: Walk, u: int, def: u32) -> bool {
    defining(w.scopes, w.uses[u].0, w.uses[u].1) == Some(def) && def != w.uses[u].0
}

/// Whether one of the first `k` uses captures the name at an index of a scope.
pub open spec fn captured_by(w: Walk, sid: u32, idx: int, k: int) -> bool {
    exists|u: int|
        0 <= u < k && #[trigger] crosses(w, u, sid) && first_index(w.scopes[sid as int].names, w.uses[u].1, 0) == idx
}

/// Whether the name at an index of a scope is captured.
pub open spec fn captured(w: Walk, sid: u32, idx: int) -> bool {
    captured_by(w, sid, idx, w.uses.len() as int)
}

/// Whether a scope lies on the way from one scope up to another, the latter not counted.
pub open spec fn on_way(scopes: Seq<Names>, from: u32, to: u32, sid: u32) -> bool
    decreases from,
{
    if from == to || from >= scopes.len() {
        false
    } else {
        from == sid || (scopes[from as int].parent matches Some(p) && p < from && on_way(scopes, p, to, sid))
    }
}

/// Whether one of the first `k` uses needs a scope to hand the context chain on.
pub open spec fn relays_for(w: Walk, sid: u32, k: int) -> bool {
    exists|u: int, def: u32|
        0 <= u < k && #[trigger] crosses(w, u, def) && on_way(w.scopes, w.uses[u].0, def, sid)
}

/// Whether a scope hands the context chain on.
pub open spec fn relays(w: Walk, sid: u32) -> bool {
    relays_for(w, sid, w.uses.len() as int)
}

/// A variable's storage.
#[derive(Clone, Copy, Debug, PartialEq, Eq, Structural)]
pub struct VarSlot {
    pub captured: bool,
    /// Set for a parameter, and for a temporary that is not captured.
    pub frame_slot: Option<usize>,
    /// Set where captured: the index in the scope's context.
    pub ctx_slot: Option<usize>,
}

/// A scope with the storage of its variables.
#[derive(Clone, Debug)]
pub struct ScopeInfo {
    pub parent: Option<u32>,
    pub is_method: bool,
    pub argc: usize,
    /// Parameters, then temporaries, in order of declaration.
    pub vars: Vec<(String, VarSlot)>,
    /// The number of context slots.
    pub nctx: usize,
    /// The number of temporaries that keep a frame slot.
    pub frame_temp_count: usize,
    pub has_ctx: bool,
    /// For a block: its frame must hold a context, for itself or for a block inside it.
    pub captures_ctx: bool,
}

/// How many of the first `k` are set.
pub open spec fn set_before(flags: Seq<bool>, k: int) -> nat
    decreases k,
{
    if k <= 0 {
        0
    } else {
        set_before(flags, k - 1) + (if flags[k - 1] {
            1nat
        } else {
            0nat
        })
    }
}

/// How many of the first `k`, from `argc` on, are not set.
pub open spec fn unset_before(flags: Seq<bool>, argc: nat, k: int) -> nat
    decreases k,
{
    if k <= 0 {
        0
    } else {
        unset_before(flags, argc, k - 1) + (if k - 1 >= argc && !flags[k - 1] {
            1nat
        } else {
            0nat
        })
    }
}

/// The storage of the variable at an index: captured ones take context slots in order, parameters
/// keep their frame slot, and the other temporaries take the frame slots after them in order.
pub open spec fn slot_at(flags: Seq<bool>, argc: nat, i: int) -> VarSlot {
    VarSlot {
        captured: flags[i],
        frame_slot: if i < argc {
            Some(i as usize)
        } else if !flags[i] {
            Some((argc + unset_before(flags, argc, i)) as usize)
        } else {
            None
        },
        ctx_slot: if flags[i] {
            Some(set_before(flags, i) as usize)
        } else {
            None
        },
    }
}

/// Which names of a scope are captured.
pub open spec fn flags_of(w: Walk, sid: u32) -> Seq<bool> {
    Seq::new(w.scopes[sid as int].names.len(), |i: int| captured(w, sid, i))
}

/// A scope's record says what the walk found.
pub open spec fn info_of(info: ScopeInfo, n: Names, flags: Seq<bool>, relay: bool) -> bool {
    let k = n.names.len() as int;
    &&& info.parent == n.parent
    &&& info.is_method == n.is_method
    &&& info.argc == n.argc
    &&& info.vars@.len() == k
    &&& forall|i: int|
        0 <= i < k ==> (#[trigger] info.vars@[i]).0@ == n.names[i] && info.vars@[i].1 == slot_at(flags, n.argc, i)
    &&& info.nctx == set_before(flags, k)
    &&& info.frame_temp_count == unset_before(flags, n.argc, k)
    &&& info.has_ctx == (info.nctx > 0)
    &&& info.captures_ctx == (!n.is_method && relay)
}

/// Where a name is found.
#[derive(Clone, Copy, Debug, PartialEq, Eq, Structural)]
pub enum Resolved {
    Local(usize),
    Captured { depth: u8, ctx_slot: u8 },
}

/// The scopes of a method; the first is the method's own.
pub struct CaptureInfo {
    pub scopes: Vec<ScopeInfo>,
}

/// The records say what the walk found.
pub open spec fn capture_of(info: CaptureInfo, w: Walk) -> bool {
    &&& info.scopes@.len() == w.scopes.len()
    &&& forall|sid: u32|
        sid < w.scopes.len() ==> info_of(
            #[trigger] info.scopes@[sid as int],
            w.scopes[sid as int],
            flags_of(w, sid),
            relays(w, sid),
        )
}

/// The index of a variable's first declaration in a record, from `i` on.
pub open spec fn var_index(vars: Seq<(String, VarSlot)>, name: Seq<char>, i: int) -> int
    decreases vars.len() - i,
{
    if i < 0 || i >= vars.len() {
        vars.len() as int
    } else if vars[i].0@ == name {
        i
    } else {
        var_index(vars, name, i + 1)
    }
}

/// The number of contexts on the way from one scope up to another.
pub open spec fn hops(scopes: Seq<ScopeInfo>, from: u32, to: u32) -> nat
    decreases from,
{
    if from == to || from >= scopes.len() {
        0
    } else {
        (if scopes[from as int].has_ctx {
            1nat
        } else {
            0nat
        }) + (match scopes[from as int].parent {
            Some(p) => if p < from {
                hops(scopes, p, to)
            } else {
                0
            },
            None => 0,
        })
    }
}

/// What a name means in a scope: the innermost declaration around it.
pub open spec fn resolution(scopes: Seq<ScopeInfo>, from: u32, sid: u32, name: Seq<char>) -> Option<Resolved>
    decreases sid,
{
    if sid >= scopes.len() {
        None
    } else {
        let vars = scopes[sid as int].vars@;
        let i = var_index(vars, name, 0);
        if i < vars.len() {
            let slot = vars[i].1;
            Some(
                if slot.captured {
                    Resolved::Captured { depth: hops(scopes, from, sid) as u8, ctx_slot: slot.ctx_slot->0 as u8 }
                } else {
                    Resolved::Local(slot.frame_slot->0)
                },
            )
        } else {
            match scopes[sid as int].parent {
                Some(p) => if p < sid {
                    resolution(scopes, from, p, name)
                } else {
                    None
                },
                None => None,
            }
        }
    }
}

impl CaptureInfo {
    /// Each scope's parent stands before it; a captured variable has a context slot, the others a
    /// frame slot.
    pub open spec fn ok(&self) -> bool {
        &&& self.scopes@.len() <= u32::MAX
        &&& forall|i: int| 0 <= i < self.scopes@.len() ==> #[trigger] scope_ok(self.scopes@[i], i)
    }

    /// Resolves a name used in a scope. None where no scope around it declares the name.
    pub fn resolve(&self, referencing_scope: u32, name: &str) -> (r: Option<Resolved>)
        requires
            self.ok(),
            referencing_scope < self.scopes@.len(),
        ensures
            r == resolution(self.scopes@, referencing_scope, referencing_scope, name@),
    {
        let mut sid: u32 = referencing_scope;
        loop
            invariant
                self.ok(),
                referencing_scope < self.scopes@.len(),
                sid < self.scopes@.len(),
                resolution(self.scopes@, referencing_scope, referencing_scope, name@) == resolution(
                    self.scopes@,
                    referencing_scope,
                    sid,
                    name@,
                ),
                reaches(self.scopes@, referencing_scope, sid),
            decreases sid,
        {
            let scope: &ScopeInfo = &self.scopes[sid as usize];
            proof {
                assert(scope_ok(self.scopes@[sid as int], sid as int));
            }
            match find_var(&scope.vars, name) {
                Some(i) => {
                    let slot: VarSlot = scope.vars[i].1;
                    assert(var_ok(scope.vars@[i as int].1));
                    if slot.captured {
                        let c: usize = match slot.ctx_slot {
                            Some(c) => c,
                            None => 0,
                        };
                        return Some(
                            Resolved::Captured { depth: self.depth_to(referencing_scope, sid), ctx_slot: c as u8 },
                        );
                    }
                    let f: usize = match slot.frame_slot {
                        Some(f) => f,
                        None => 0,
                    };
                    return Some(Resolved::Local(f));
                },
                None => {},
            }
            match scope.parent {
                Some(p) => {
                    proof {
                        lemma_reaches_parent(self.scopes@, referencing_scope, sid, p);
                    }
                    sid = p;
                },
                None => {
                    return None;
                },
            }
        }
    }

    /// The number of contexts on the way from one scope up to another.
    fn depth_to(&self, from: u32, to: u32) -> (d: u8)
        requires
            self.ok(),
            from < self.scopes@.len(),
            reaches(self.scopes@, from, to),
        ensures
            d == hops(self.scopes@, from, to) as u8,
    {
        let mut depth: u32 = 0;
        let mut sid: u32 = from;
        while sid != to
            invariant
                self.ok(),
                sid < self.scopes@.len(),
                reaches(self.scopes@, sid, to),
                depth + hops(self.scopes@, sid, to) == hops(self.scopes@, from, to),
                depth + sid <= from,
            decreases sid,
        {
            proof {
                assert(scope_ok(self.scopes@[sid as int], sid as int));
            }
            if self.scopes[sid as usize].has_ctx {
                depth += 1;
            }
            match self.scopes[sid as usize].parent {
                Some(p) => {
                    sid = p;
                },
                None => {
                    return depth as u8;
                },
            }
        }
        depth as u8
    }
}

/// A variable has the slot that its capture asks for.
pub open spec fn var_ok(v: VarSlot) -> bool {
    (v.captured ==> v.ctx_slot is Some) && (!v.captured ==> v.frame_slot is Some)
}

pub open spec fn scope_ok(s: ScopeInfo, i: int) -> bool {
    &&& s.parent matches Some(p) ==> p < i
    &&& forall|v: int| 0 <= v < s.vars@.len() ==> var_ok((#[trigger] s.vars@[v]).1)
}

/// Whether the parents lead from one scope to another.
pub open spec fn reaches(scopes: Seq<ScopeInfo>, from: u32, to: u32) -> bool
    decreases from,
{
    from == to || (from < scopes.len() && match scopes[from as int].parent {
        Some(p) => p < from && reaches(scopes, p, to),
        None => false,
    })
}

proof fn lemma_reaches_parent(scopes: Seq<ScopeInfo>, from: u32, to: u32, p: u32)
    requires
        reaches(scopes, from, to),
        to < scopes.len(),
        scopes[to as int].parent == Some(p),
        p < to,
    ensures
        reaches(scopes, from, p),
    decreases from,
{
    if from != to {
        lemma_reaches_parent(scopes, scopes[from as int].parent->0, to, p);
    } else {
        assert(reaches(scopes, p, p));
    }
}

fn find_var(vars: &Vec<(String, VarSlot)>, name: &str) -> (r: Option<usize>)
    ensures
        match r {
            Some(i) => i < vars@.len() && i == var_index(vars@, name@, 0),
            None => var_index(vars@, name@, 0) == vars@.len(),
        },
{
    let mut i: usize = 0;
    while i < vars.len()
        invariant
            i <= vars@.len(),
            var_index(vars@, name@, 0) == var_index(vars@, name@, i as int),
        decreases vars@.len() - i,
    {
        if text_eq(vars[i].0.as_str(), name) {
            return Some(i);
        }
        i += 1;
    }
    None
}

fn index_of(names: &Vec<String>, name: &str) -> (r: usize)
    ensures
        r == first_index(texts(names@), name@, 0),
        r <= names@.len(),
{
    let mut i: usize = 0;
    while i < names.len()
        invariant
            i <= names@.len(),
            first_index(texts(names@), name@, 0) == first_index(texts(names@), name@, i as int),
        decreases names@.len() - i,
    {
        if text_eq(names[i].as_str(), name) {
            return i;
        }
        i += 1;
    }
    i
}

fn find_defining_scope(builders: &Vec<ScopeBuilder>, from: u32, name: &str, Ghost(w): Ghost<Walk>) -> (r: Option<u32>)
    requires
        from < builders@.len(),
        well_nested(w),
        w.scopes == walk_view(builders@, Seq::empty()).scopes,
    ensures
        r == defining(w.scopes, from, name@),
        r matches Some(d) ==> d <= from,
{
    let mut sid: u32 = from;
    loop
        invariant
            sid < builders@.len(),
            sid <= from,
            well_nested(w),
            w.scopes == walk_view(builders@, Seq::empty()).scopes,
            defining(w.scopes, from, name@) == defining(w.scopes, sid, name@),
        decreases sid,
    {
        let b: &ScopeBuilder = &builders[sid as usize];
        proof {
            assert(w.scopes[sid as int] == builder_view(builders@[sid as int]));
        }
        if index_of(&b.names, name) < b.names.len() {
            return Some(sid);
        }
        match b.parent {
            Some(p) => {
                sid = p;
            },
            None => {
                return None;
            },
        }
    }
}

/// A scope's record, from its names and their marks.
fn finalize_scope(b: ScopeBuilder, marks: &Vec<bool>, relay: bool) -> (info: ScopeInfo)
    requires
        marks@.len() == b.names@.len(),
        b.argc <= b.names@.len(),
    ensures
        info_of(info, builder_view(b), marks@, relay),
{
    let argc: usize = b.argc;
    let n: usize = b.names.len();
    let mut vars: Vec<(String, VarSlot)> = Vec::new();
    let mut next_ctx: usize = 0;
    let mut next_temp: usize = argc;
    let mut i: usize = 0;
    while i < n
        invariant
            i <= n,
            n == b.names@.len(),
            n == marks@.len(),
            argc <= n,
            vars@.len() == i,
            next_ctx == set_before(marks@, i as int),
            next_temp == argc + unset_before(marks@, argc as nat, i as int),
            next_ctx <= i,
            next_temp <= argc + i,
            i <= argc ==> next_temp == argc,
            i >= argc ==> next_temp <= i,
            forall|k: int|
                0 <= k < i ==> (#[trigger] vars@[k]).0@ == texts(b.names@)[k] && vars@[k].1 == slot_at(
                    marks@,
                    argc as nat,
                    k,
                ),
        decreases n - i,
    {
        let captured: bool = marks[i];
        let ctx_slot: Option<usize> = if captured {
            Some(next_ctx)
        } else {
            None
        };
        let frame_slot: Option<usize> = if i < argc {
            Some(i)
        } else if !captured {
            Some(next_temp)
        } else {
            None
        };
        if captured {
            next_ctx += 1;
        }
        if i >= argc && !captured {
            next_temp += 1;
        }
        vars.push((b.names[i].clone(), VarSlot { captured, frame_slot, ctx_slot }));
        i += 1;
    }
    ScopeInfo {
        parent: b.parent,
        is_method: b.is_method,
        argc,
        vars,
        nctx: next_ctx,
        frame_temp_count: next_temp - argc,
        has_ctx: next_ctx > 0,
        captures_ctx: !b.is_method && relay,
    }
}

proof fn lemma_relays_step(w: Walk, sid: u32, u: int)
    requires
        0 <= u,
    ensures
        relays_for(w, sid, u + 1) == (relays_for(w, sid, u) || match defining(w.scopes, w.uses[u].0, w.uses[u].1) {
            Some(def) => def != w.uses[u].0 && on_way(w.scopes, w.uses[u].0, def, sid),
            None => false,
        }),
{
    match defining(w.scopes, w.uses[u].0, w.uses[u].1) {
        Some(def) => {
            if def != w.uses[u].0 {
                assert(crosses(w, u, def));
            }
        },
        None => {},
    }
    if relays_for(w, sid, u + 1) {
        let (v, def) = choose|v: int, def: u32|
            0 <= v < u + 1 && #[trigger] crosses(w, v, def) && on_way(w.scopes, w.uses[v].0, def, sid);
        if v < u {
            assert(crosses(w, v, def));
        }
    }
    if relays_for(w, sid, u) {
        let (v, def) = choose|v: int, def: u32|
            0 <= v < u && #[trigger] crosses(w, v, def) && on_way(w.scopes, w.uses[v].0, def, sid);
        assert(crosses(w, v, def));
    }
}

proof fn lemma_captured_step(w: Walk, sid: u32, idx: int, u: int)
    requires
        0 <= u,
    ensures
        captured_by(w, sid, idx, u + 1) == (captured_by(w, sid, idx, u) || (crosses(w, u, sid) && first_index(
            w.scopes[sid as int].names,
            w.uses[u].1,
            0,
        ) == idx)),
{
    if captured_by(w, sid, idx, u + 1) {
        let v = choose|v: int|
            0 <= v < u + 1 && #[trigger] crosses(w, v, sid) && first_index(w.scopes[sid as int].names, w.uses[v].1, 0)
                == idx;
        if v < u {
            assert(crosses(w, v, sid));
        }
    }
    if captured_by(w, sid, idx, u) {
        let v = choose|v: int|
            0 <= v < u && #[trigger] crosses(w, v, sid) && first_index(w.scopes[sid as int].names, w.uses[v].1, 0) == idx;
        assert(crosses(w, v, sid));
    }
}

/// Sets the mark of every scope on the way from one scope up to another.
fn mark_way(builders: &Vec<ScopeBuilder>, relay: &mut Vec<bool>, from: u32, def: u32, name: &str, Ghost(w): Ghost<Walk>)
    requires
        from < builders@.len(),
        old(relay)@.len() == builders@.len(),
        well_nested(w),
        w.scopes == walk_view(builders@, Seq::empty()).scopes,
        defining(w.scopes, from, name@) == Some(def),
    ensures
        final(relay)@.len() == old(relay)@.len(),
        forall|s: u32|
            s < final(relay)@.len() ==> #[trigger] final(relay)@[s as int] == (old(relay)@[s as int] || on_way(
                w.scopes,
                from,
                def,
                s,
            )),
{
    let mut cur: u32 = from;
    while cur != def
        invariant
            cur < builders@.len(),
            relay@.len() == builders@.len(),
            old(relay)@.len() == builders@.len(),
            well_nested(w),
            w.scopes == walk_view(builders@, Seq::empty()).scopes,
            defining(w.scopes, cur, name@) == Some(def),
            forall|s: u32|
                s < relay@.len() ==> (#[trigger] relay@[s as int] ==> old(relay)@[s as int] || on_way(
                    w.scopes,
                    from,
                    def,
                    s,
                )),
            forall|s: u32|
                s < relay@.len() ==> (old(relay)@[s as int] || on_way(w.scopes, from, def, s) ==> #[trigger] relay@[s as int]
                    || on_way(w.scopes, cur, def, s)),
            forall|s: u32| #[trigger] on_way(w.scopes, cur, def, s) ==> on_way(w.scopes, from, def, s),
        decreases cur,
    {
        proof {
            assert(w.scopes[cur as int] == builder_view(builders@[cur as int]));
            assert(on_way(w.scopes, cur, def, cur));
        }
        relay.set(cur as usize, true);
        match builders[cur as usize].parent {
            Some(p) => {
                proof {
                    assert forall|s: u32| #[trigger] on_way(w.scopes, p, def, s) implies on_way(w.scopes, from, def, s) by {
                        assert(on_way(w.scopes, cur, def, s));
                    }
                }
                cur = p;
            },
            None => {},
        }
    }
}

/// Marks the captured names and the scopes that hand the context chain on.
fn mark_captures(builders: &Vec<ScopeBuilder>, uses: &Vec<(u32, String)>) -> (r: (Vec<Vec<bool>>, Vec<bool>))
    requires
        well_nested(walk_view(builders@, uses@)),
        builders@.len() <= u32::MAX,
    ensures
        r.0@.len() == builders@.len(),
        r.1@.len() == builders@.len(),
        forall|s: u32|
            s < builders@.len() ==> (#[trigger] r.0@[s as int])@ == flags_of(walk_view(builders@, uses@), s),
        forall|s: u32| s < builders@.len() ==> #[trigger] r.1@[s as int] == relays(walk_view(builders@, uses@), s),
{
    let ghost w = walk_view(builders@, uses@);
    let mut marks: Vec<Vec<bool>> = Vec::new();
    let mut relay: Vec<bool> = Vec::new();
    let mut i: usize = 0;
    while i < builders.len()
        invariant
            i <= builders@.len(),
            marks@.len() == i,
            relay@.len() == i,
            forall|s: int| 0 <= s < i ==> !#[trigger] relay@[s],
            forall|s: int| 0 <= s < i ==> (#[trigger] marks@[s])@.len() == builders@[s].names@.len(),
            forall|s: int, k: int| 0 <= s < i && 0 <= k < marks@[s]@.len() ==> !#[trigger] marks@[s]@[k],
        decreases builders@.len() - i,
    {
        let n: usize = builders[i].names.len();
        let mut row: Vec<bool> = Vec::new();
        let mut k: usize = 0;
        while k < n
            invariant
                k <= n,
                row@.len() == k,
                forall|q: int| 0 <= q < k ==> !#[trigger] row@[q],
            decreases n - k,
        {
            row.push(false);
            k += 1;
        }
        marks.push(row);
        relay.push(false);
        i += 1;
    }
    let mut u: usize = 0;
    while u < uses.len()
        invariant
            u <= uses@.len(),
            w == walk_view(builders@, uses@),
            well_nested(w),
            builders@.len() <= u32::MAX,
            marks@.len() == builders@.len(),
            relay@.len() == builders@.len(),
            forall|s: int| 0 <= s < marks@.len() ==> (#[trigger] marks@[s])@.len() == builders@[s].names@.len(),
            forall|s: u32, k: int|
                s < marks@.len() && 0 <= k < marks@[s as int]@.len() ==> #[trigger] marks@[s as int]@[k] == captured_by(
                    w,
                    s,
                    k,
                    u as int,
                ),
            forall|s: u32| s < relay@.len() ==> #[trigger] relay@[s as int] == relays_for(w, s, u as int),
        decreases uses@.len() - u,
    {
        let from: u32 = uses[u].0;
        let name: &str = uses[u].1.as_str();
        let ghost marks0 = marks@;
        let ghost relay0 = relay@;
        proof {
            assert(w.uses[u as int].0 == from);
            assert(w.uses[u as int].1 == name@);
            assert(w.scopes =~= walk_view(builders@, Seq::empty()).scopes);
        }
        match find_defining_scope(builders, from, name, Ghost(w)) {
            Some(def) => {
                if def != from {
                    let idx: usize = index_of(&builders[def as usize].names, name);
                    proof {
                        lemma_defining_declares(w.scopes, from, name@);
                        assert(w.scopes[def as int] == builder_view(builders@[def as int]));
                        assert(crosses(w, u as int, def));
                    }
                    let row: &mut Vec<bool> = &mut marks[def as usize];
                    row.set(idx, true);
                    mark_way(builders, &mut relay, from, def, name, Ghost(w));
                }
            },
            None => {},
        }
        proof {
            assert forall|s: u32, k: int| s < marks@.len() && 0 <= k < marks@[s as int]@.len() implies #[trigger] marks@[s as int]@[k]
                == captured_by(w, s, k, u + 1) by {
                lemma_captured_step(w, s, k, u as int);
                assert(marks0[s as int]@[k] == captured_by(w, s, k, u as int));
                assert(w.scopes[s as int] == builder_view(builders@[s as int]));
            }
            assert forall|s: u32| s < relay@.len() implies #[trigger] relay@[s as int] == relays_for(w, s, u + 1) by {
                lemma_relays_step(w, s, u as int);
                assert(relay0[s as int] == relays_for(w, s, u as int));
            }
        }
        u += 1;
    }
    proof {
        assert forall|s: u32| s < builders@.len() implies (#[trigger] marks@[s as int])@ == flags_of(w, s) by {
            assert(w.scopes[s as int] == builder_view(builders@[s as int]));
            assert(marks@[s as int]@ =~= flags_of(w, s));
        }
    }
    (marks, relay)
}

proof fn lemma_defining_declares(scopes: Seq<Names>, sid: u32, name: Seq<char>)
    ensures
        defining(scopes, sid, name) matches Some(d) ==> d < scopes.len() && declares(scopes[d as int], name),
    decreases sid,
{
    if sid < scopes.len() && !declares(scopes[sid as int], name) {
        match scopes[sid as int].parent {
            Some(p) => {
                if p < sid {
                    lemma_defining_declares(scopes, p, name);
                }
            },
            None => {},
        }
    }
}

/// Each scope has at least the names of its parameters.
pub open spec fn params_named(w: Walk) -> bool {
    forall|i: int| 0 <= i < w.scopes.len() ==> (#[trigger] w.scopes[i]).argc <= w.scopes[i].names.len()
}

proof fn lemma_params(e: Expr, sid: u32, w: Walk)
    requires
        params_named(w),
    ensures
        params_named(walk(e, sid, w)),
    decreases e, 1int, 0int,
{
    match e {
        Expr::Assign { name, value, .. } => {
            lemma_params(*value, sid, w.used(sid, name@));
        },
        Expr::Send { receiver, selector, args, is_super, .. } => {
            let p = send_positions(selector@, *receiver, args@, is_super);
            let d = dissolves(p, BlockPos::Receiver);
            lemma_params_at(*receiver, d, sid, w);
            lemma_params_args(args@, p, sid, walk_at(*receiver, d, sid, w), args@.len() as int);
        },
        Expr::Cascade { receiver, segments, .. } => {
            lemma_params(*receiver, sid, w);
            lemma_params_list(segments@, sid, walk(*receiver, sid, w), segments@.len() as int);
        },
        Expr::DynArray { elems, .. } => {
            lemma_params_list(elems@, sid, w, elems@.len() as int);
        },
        Expr::Return { value, .. } => {
            lemma_params(*value, sid, w);
        },
        Expr::Block(b) => {
            lemma_params_list(b.body@, w.scopes.len() as u32, w.opened(sid, *b), b.body@.len() as int);
        },
        _ => {},
    }
}

proof fn lemma_params_at(e: Expr, dissolved: bool, sid: u32, w: Walk)
    requires
        params_named(w),
    ensures
        params_named(walk_at(e, dissolved, sid, w)),
    decreases e, 2int, 0int,
{
    if dissolved {
        match e {
            Expr::Block(b) => {
                let w1 = w.absorbed(sid, *b);
                assert forall|i: int| 0 <= i < w1.scopes.len() implies (#[trigger] w1.scopes[i]).argc
                    <= w1.scopes[i].names.len() by {
                    assert(w.scopes[i].argc <= w.scopes[i].names.len());
                }
                lemma_params_list(b.body@, sid, w1, b.body@.len() as int);
            },
            _ => {},
        }
    } else {
        lemma_params(e, sid, w);
    }
}

proof fn lemma_params_args(es: Seq<Expr>, p: Option<Seq<BlockPos>>, sid: u32, w: Walk, k: int)
    requires
        params_named(w),
    ensures
        params_named(walk_args(es, p, sid, w, k)),
    decreases es, k, 0int,
{
    if 0 < k <= es.len() {
        lemma_params_args(es, p, sid, w, k - 1);
        lemma_params_at(
            es[k - 1],
            dissolves(p, BlockPos::Arg((k - 1) as usize)),
            sid,
            walk_args(es, p, sid, w, k - 1),
        );
    }
}

proof fn lemma_params_list(es: Seq<Expr>, sid: u32, w: Walk, k: int)
    requires
        params_named(w),
    ensures
        params_named(walk_list(es, sid, w, k)),
    decreases es, k, 0int,
{
    if 0 < k <= es.len() {
        lemma_params_list(es, sid, w, k - 1);
        lemma_params(es[k - 1], sid, walk_list(es, sid, w, k - 1));
    }
}

/// What [`analyze`] leaves of a method: the same tree with its scopes numbered.
pub open spec fn analyzed(before: MethodNode, after: MethodNode) -> bool {
    &&& after == (MethodNode { body: after.body, ..before })
    &&& after.body@.len() == before.body@.len()
    &&& same_list(before.body@, after.body@, before.body@.len() as int)
    &&& numbered_list(after.body@, 0, method_scope(after), after.body@.len() as int)
}

/// Finds the scopes of a method and the storage of their variables, and writes each block's scope
/// number into the tree.
pub fn analyze(method: &mut MethodNode) -> (info: CaptureInfo)
    requires
        walk_method(*old(method)).scopes.len() <= u32::MAX,
    ensures
        analyzed(*old(method), *final(method)),
        walk_method(*final(method)) == walk_method(*old(method)),
        capture_of(info, walk_method(*final(method))),
        info.ok(),
        info.scopes@.len() > 0,
{
    let ghost m0 = *method;
    let ghost w0 = method_scope(m0);
    let mut names: Vec<String> = Vec::new();
    extend_names(&mut names, &method.params, &method.temps);
    let mut builders: Vec<ScopeBuilder> = Vec::new();
    let mut uses: Vec<(u32, String)> = Vec::new();
    assert(texts(names@) =~= texts(method.params@) + texts(method.temps@));
    builders.push(ScopeBuilder { parent: None, is_method: true, argc: method.params.len(), names });
    assert(walk_view(builders@, uses@) =~= w0);
    proof {
        lemma_nested_list(m0.body@, 0, w0, m0.body@.len() as int);
        lemma_params_list(m0.body@, 0, w0, m0.body@.len() as int);
    }
    walk_block_body(&mut method.body, 0, &mut builders, &mut uses);
    let ghost w = walk_view(builders@, uses@);
    let ghost all = builders@;
    assert(w == walk_method(*method));
    assert(w.scopes.len() == builders@.len());
    let (marks, relay): (Vec<Vec<bool>>, Vec<bool>) = mark_captures(&builders, &uses);
    let mut scopes: Vec<ScopeInfo> = Vec::new();
    let mut rest: Vec<ScopeBuilder> = builders;
    let n: usize = rest.len();
    let mut rev: Vec<ScopeBuilder> = Vec::new();
    let mut i: usize = 0;
    while i < n
        invariant
            i <= n,
            n == all.len(),
            rest@ == all.take(n - i),
            rev@.len() == i,
            forall|k: int| 0 <= k < i ==> #[trigger] rev@[k] == all[n - 1 - k],
        decreases n - i,
    {
        match rest.pop() {
            Some(b) => {
                rev.push(b);
            },
            None => {},
        }
        assert(all.take(n - i).drop_last() =~= all.take(n - i - 1));
        i += 1;
    }
    let mut sid: usize = 0;
    while sid < n
        invariant
            sid <= n,
            n == all.len(),
            n <= u32::MAX,
            w == walk_view(all, uses@),
            params_named(w),
            marks@.len() == n,
            relay@.len() == n,
            forall|s: u32| s < n ==> (#[trigger] marks@[s as int])@ == flags_of(w, s),
            forall|s: u32| s < n ==> #[trigger] relay@[s as int] == relays(w, s),
            rev@.len() == n - sid,
            forall|k: int| 0 <= k < n - sid ==> #[trigger] rev@[k] == all[n - 1 - k],
            scopes@.len() == sid,
            forall|s: u32|
                s < sid ==> info_of(#[trigger] scopes@[s as int], w.scopes[s as int], flags_of(w, s), relays(w, s)),
        decreases n - sid,
    {
        match rev.pop() {
            Some(b) => {
                proof {
                    assert(b == all[sid as int]);
                    assert(w.scopes[sid as int] == builder_view(b));
                    assert(marks@[(sid as u32) as int]@ == flags_of(w, sid as u32));
                    assert(relay@[(sid as u32) as int] == relays(w, sid as u32));
                }
                let r: bool = relay[sid];
                scopes.push(finalize_scope(b, &marks[sid], r));
            },
            None => {},
        }
        sid += 1;
    }
    let info = CaptureInfo { scopes };
    proof {
        assert forall|i: int| 0 <= i < info.scopes@.len() implies #[trigger] scope_ok(info.scopes@[i], i) by {
            let s = i as u32;
            assert(info_of(info.scopes@[s as int], w.scopes[s as int], flags_of(w, s), relays(w, s)));
        }
    }
    info
}

// ── Laws ────────────────────────────────────────────────────────────────

proof fn lemma_var_index(info: ScopeInfo, n: Names, flags: Seq<bool>, relay: bool, name: Seq<char>, i: int)
    requires
        info_of(info, n, flags, relay),
        0 <= i <= n.names.len(),
    ensures
        var_index(info.vars@, name, i) == first_index(n.names, name, i),
    decreases n.names.len() - i,
{
    if i < n.names.len() {
        lemma_var_index(info, n, flags, relay, name, i + 1);
        assert(info.vars@[i].0@ == n.names[i]);
    }
}

proof fn lemma_first_index(names: Seq<Seq<char>>, name: Seq<char>, i: int)
    requires
        0 <= i,
    ensures
        i <= names.len() ==> i <= first_index(names, name, i) <= names.len(),
    decreases names.len() - i,
{
    if i < names.len() {
        lemma_first_index(names, name, i + 1);
    }
}

proof fn lemma_resolution(info: CaptureInfo, w: Walk, from: u32, sid: u32, name: Seq<char>)
    requires
        capture_of(info, w),
        well_nested(w),
        sid < w.scopes.len(),
        w.scopes.len() <= u32::MAX,
    ensures
        match defining(w.scopes, sid, name) {
            Some(d) => {
                let i = first_index(w.scopes[d as int].names, name, 0);
                let slot = slot_at(flags_of(w, d), w.scopes[d as int].argc, i);
                resolution(info.scopes@, from, sid, name) == Some(
                    if captured(w, d, i) {
                        Resolved::Captured {
                            depth: hops(info.scopes@, from, d) as u8,
                            ctx_slot: slot.ctx_slot->0 as u8,
                        }
                    } else {
                        Resolved::Local(slot.frame_slot->0)
                    },
                )
            },
            None => resolution(info.scopes@, from, sid, name) is None,
        },
    decreases sid,
{
    let n = w.scopes[sid as int];
    assert(info_of(info.scopes@[sid as int], n, flags_of(w, sid), relays(w, sid)));
    lemma_var_index(info.scopes@[sid as int], n, flags_of(w, sid), relays(w, sid), name, 0);
    lemma_first_index(n.names, name, 0);
    if declares(n, name) {
        let i = first_index(n.names, name, 0);
        assert(info.scopes@[sid as int].vars@[i].1 == slot_at(flags_of(w, sid), n.argc, i));
    } else {
        match n.parent {
            Some(p) => {
                lemma_resolution(info, w, from, p, name);
            },
            None => {},
        }
    }
}

/// A name that is used from another scope than the one that declares it lives in that scope's
/// context: every use of it, from whatever scope, finds the context slot.
pub proof fn law_crossing_name_is_captured(info: CaptureInfo, w: Walk, u: int, def: u32, from: u32)
    requires
        capture_of(info, w),
        well_nested(w),
        w.scopes.len() <= u32::MAX,
        0 <= u < w.uses.len(),
        crosses(w, u, def),
        from < w.scopes.len(),
        defining(w.scopes, from, w.uses[u].1) == Some(def),
    ensures
        resolution(info.scopes@, from, from, w.uses[u].1) matches Some(Resolved::Captured { .. }),
{
    lemma_resolution(info, w, from, from, w.uses[u].1);
    lemma_defining_declares(w.scopes, from, w.uses[u].1);
}

/// A name that no use captures is found in the frame, and only from the scope that declares it.
pub proof fn law_plain_name_stays_in_frame(info: CaptureInfo, w: Walk, u: int, def: u32)
    requires
        capture_of(info, w),
        well_nested(w),
        w.scopes.len() <= u32::MAX,
        0 <= u < w.uses.len(),
        defining(w.scopes, w.uses[u].0, w.uses[u].1) == Some(def),
        !captured(w, def, first_index(w.scopes[def as int].names, w.uses[u].1, 0)),
    ensures
        def == w.uses[u].0,
        resolution(info.scopes@, w.uses[u].0, w.uses[u].0, w.uses[u].1) matches Some(Resolved::Local(_)),
{
    lemma_resolution(info, w, w.uses[u].0, w.uses[u].0, w.uses[u].1);
    if def != w.uses[u].0 {
        assert(crosses(w, u, def));
    }
}

proof fn lemma_set_before(flags: Seq<bool>, i: int, k: int)
    requires
        0 <= i <= k,
    ensures
        set_before(flags, i) <= set_before(flags, k),
    decreases k - i,
{
    if i < k {
        lemma_set_before(flags, i, k - 1);
    }
}

proof fn lemma_unset_before(flags: Seq<bool>, argc: nat, i: int, k: int)
    requires
        0 <= i <= k,
    ensures
        unset_before(flags, argc, i) <= unset_before(flags, argc, k) <= k,
    decreases k,
{
    if k > 0 {
        if i < k {
            lemma_unset_before(flags, argc, i, k - 1);
        } else {
            lemma_unset_before(flags, argc, i - 1, k - 1);
        }
    }
}

/// Context slots follow the order of declaration, whatever the order of use, and lie below the
/// context's size.
pub proof fn law_context_slots_in_order(flags: Seq<bool>, i: int, k: int, n: int)
    requires
        0 <= i < k < n,
        flags[i],
        flags[k],
    ensures
        set_before(flags, i) < set_before(flags, k) < set_before(flags, n),
{
    lemma_set_before(flags, i + 1, k);
    lemma_set_before(flags, k + 1, n);
}

/// Two variables that both have a frame slot have different ones.
pub proof fn law_frame_slots_differ(flags: Seq<bool>, argc: nat, i: int, k: int)
    requires
        0 <= i < k < flags.len() <= usize::MAX,
        argc <= flags.len(),
        slot_at(flags, argc, i).frame_slot is Some,
        slot_at(flags, argc, k).frame_slot is Some,
    ensures
        slot_at(flags, argc, i).frame_slot != slot_at(flags, argc, k).frame_slot,
{
    lemma_unset_before(flags, argc, i + 1, k);
    lemma_unset_before(flags, argc, i, k);
    lemma_unset_low(flags, argc, i);
    lemma_unset_low(flags, argc, k);
}

proof fn lemma_unset_low(flags: Seq<bool>, argc: nat, k: int)
    requires
        0 <= k,
    ensures
        k <= argc ==> unset_before(flags, argc, k) == 0,
        k >= argc ==> argc + unset_before(flags, argc, k) <= k,
    decreases k,
{
    if k > 0 {
        lemma_unset_low(flags, argc, k - 1);
    }
}

// ── Loop variables ──────────────────────────────────────────────────────

/// A walk that goes on from another: its uses and the names of its scopes stay, more may follow.
pub open spec fn grows(w: Walk, w2: Walk) -> bool {
    &&& w.uses.is_prefix_of(w2.uses)
    &&& w.scopes.len() <= w2.scopes.len()
    &&& forall|i: int|
        0 <= i < w.scopes.len() ==> (#[trigger] w.scopes[i]).names.is_prefix_of(w2.scopes[i].names)
}

/// The uses of a name that a walk adds stand in one scope; there are none where `nested`.
spec fn confined(w: Walk, w2: Walk, v: Seq<char>, nested: bool, sid: u32) -> bool {
    forall|u: int|
        w.uses.len() <= u < w2.uses.len() && (#[trigger] w2.uses[u]).1 == v ==> !nested && w2.uses[u].0 == sid
}

proof fn lemma_confined_step(w: Walk, w1: Walk, w2: Walk, v: Seq<char>, nested: bool, sid: u32)
    requires
        grows(w, w1),
        grows(w1, w2),
    ensures
        grows(w, w2),
        confined(w, w1, v, nested, sid) && confined(w1, w2, v, nested, sid) ==> confined(w, w2, v, nested, sid),
{
    assert forall|i: int| 0 <= i < w.scopes.len() implies (#[trigger] w.scopes[i]).names.is_prefix_of(
        w2.scopes[i].names,
    ) by {
        assert(w1.scopes[i].names.is_prefix_of(w2.scopes[i].names));
    }
    if confined(w, w1, v, nested, sid) && confined(w1, w2, v, nested, sid) {
        assert forall|u: int| w.uses.len() <= u < w2.uses.len() && (#[trigger] w2.uses[u]).1 == v implies !nested
            && w2.uses[u].0 == sid by {
            if u < w1.uses.len() {
                assert(w1.uses[u] == w2.uses[u]);
            }
        }
    }
}

proof fn lemma_confined(e: Expr, v: Seq<char>, nested: bool, sid: u32, w: Walk)
    ensures
        grows(w, walk(e, sid, w)),
        !used_nested(e, v, nested) ==> confined(w, walk(e, sid, w), v, nested, sid),
    decreases e, 1int, 0int,
{
    let w2 = walk(e, sid, w);
    match e {
        Expr::Assign { name, value, .. } => {
            let w1 = w.used(sid, name@);
            lemma_confined(*value, v, nested, sid, w1);
            lemma_confined_step(w, w1, w2, v, nested, sid);
        },
        Expr::Send { receiver, selector, args, is_super, .. } => {
            let p = send_positions(selector@, *receiver, args@, is_super);
            let d = dissolves(p, BlockPos::Receiver);
            let w1 = walk_at(*receiver, d, sid, w);
            lemma_confined_at(*receiver, v, nested, d, sid, w);
            lemma_confined_args(args@, p, v, nested, sid, w1, args@.len() as int);
            lemma_confined_step(w, w1, w2, v, nested, sid);
        },
        Expr::Cascade { receiver, segments, .. } => {
            let w1 = walk(*receiver, sid, w);
            lemma_confined(*receiver, v, nested, sid, w);
            lemma_confined_list(segments@, v, nested, sid, w1, segments@.len() as int);
            lemma_confined_step(w, w1, w2, v, nested, sid);
        },
        Expr::DynArray { elems, .. } => {
            lemma_confined_list(elems@, v, nested, sid, w, elems@.len() as int);
        },
        Expr::Return { value, .. } => {
            lemma_confined(*value, v, nested, sid, w);
        },
        Expr::Block(b) => {
            let id = w.scopes.len() as u32;
            let w1 = w.opened(sid, *b);
            assert(grows(w, w1));
            lemma_confined_list(b.body@, v, true, id, w1, b.body@.len() as int);
            lemma_confined_step(w, w1, w2, v, true, id);
        },
        _ => {},
    }
}

proof fn lemma_confined_at(e: Expr, v: Seq<char>, nested: bool, dissolved: bool, sid: u32, w: Walk)
    ensures
        grows(w, walk_at(e, dissolved, sid, w)),
        !used_at(e, v, nested, dissolved) ==> confined(w, walk_at(e, dissolved, sid, w), v, nested, sid),
    decreases e, 2int, 0int,
{
    if dissolved {
        match e {
            Expr::Block(b) => {
                let w1 = w.absorbed(sid, *b);
                assert(grows(w, w1));
                lemma_confined_list(b.body@, v, nested, sid, w1, b.body@.len() as int);
                lemma_confined_step(w, w1, walk_at(e, dissolved, sid, w), v, nested, sid);
            },
            _ => {},
        }
    } else {
        lemma_confined(e, v, nested, sid, w);
    }
}

proof fn lemma_confined_args(
    es: Seq<Expr>,
    p: Option<Seq<BlockPos>>,
    v: Seq<char>,
    nested: bool,
    sid: u32,
    w: Walk,
    k: int,
)
    ensures
        grows(w, walk_args(es, p, sid, w, k)),
        !used_in_args(es, p, v, nested, k) ==> confined(w, walk_args(es, p, sid, w, k), v, nested, sid),
    decreases es, k, 0int,
{
    if 0 < k <= es.len() {
        let w1 = walk_args(es, p, sid, w, k - 1);
        lemma_confined_args(es, p, v, nested, sid, w, k - 1);
        lemma_confined_at(es[k - 1], v, nested, dissolves(p, BlockPos::Arg((k - 1) as usize)), sid, w1);
        lemma_confined_step(w, w1, walk_args(es, p, sid, w, k), v, nested, sid);
    }
}

proof fn lemma_confined_list(es: Seq<Expr>, v: Seq<char>, nested: bool, sid: u32, w: Walk, k: int)
    ensures
        grows(w, walk_list(es, sid, w, k)),
        !used_nested_in(es, v, nested, k) ==> confined(w, walk_list(es, sid, w, k), v, nested, sid),
    decreases es, k, 0int,
{
    if 0 < k <= es.len() {
        let w1 = walk_list(es, sid, w, k - 1);
        lemma_confined_list(es, v, nested, sid, w, k - 1);
        lemma_confined(es[k - 1], v, nested, sid, w1);
        lemma_confined_step(w, w1, walk_list(es, sid, w, k), v, nested, sid);
    }
}

/// A walk takes back neither a use nor a name.
pub proof fn law_walk_goes_on(es: Seq<Expr>, sid: u32, w: Walk, k: int)
    ensures
        grows(w, walk_list(es, sid, w, k)),
{
    lemma_confined_list(es, Seq::empty(), false, sid, w, k);
}

/// The variable of a dissolved loop over a range is captured by no block in the loop's body: each
/// use of it there stands in the scope that the loop stands in, which declares it. This holds
/// however the walk goes on after the loop.
pub proof fn law_loop_variable_is_fresh(receiver: Expr, args: Seq<Expr>, b: BlockNode, sid: u32, w: Walk, last: Walk)
    requires
        dissolves(positions("to:do:"@, receiver, args), BlockPos::Arg(1)),
        args[1] matches Expr::Block(x) && *x == b,
        sid < w.scopes.len(),
        grows(walk_at(args[1], true, sid, w), last),
    ensures
        b.params@.len() == 1,
        forall|u: int|
            w.uses.len() <= u < walk_at(args[1], true, sid, w).uses.len() && (#[trigger] last.uses[u]).1 == b.params@[0]@
                ==> last.uses[u].0 == sid,
        forall|u: int, def: u32|
            w.uses.len() <= u < walk_at(args[1], true, sid, w).uses.len() && last.uses[u].1 == b.params@[0]@
                ==> !#[trigger] crosses(last, u, def),
{
    lemma_to_do();
    assert(positions("to:do:"@, receiver, args) is Some);
    let v = b.params@[0]@;
    let w1 = w.absorbed(sid, b);
    let after = walk_at(args[1], true, sid, w);
    assert(grows(w, w1));
    lemma_confined_list(b.body@, v, false, sid, w1, b.body@.len() as int);
    let names = last.scopes[sid as int].names;
    let at = w.scopes[sid as int].names.len() as int;
    assert(names[at] == v) by {
        assert(names_of(b)[0] == v);
        assert(w1.scopes[sid as int].names[at] == v);
        assert(w1.scopes[sid as int].names.is_prefix_of(after.scopes[sid as int].names));
        assert(after.scopes[sid as int].names.is_prefix_of(names));
    }
    lemma_found(names, v, 0, at);
    assert(declares(last.scopes[sid as int], v));
    assert(defining(last.scopes, sid, v) == Some(sid));
    assert forall|u: int| w.uses.len() <= u < after.uses.len() && (#[trigger] last.uses[u]).1 == v implies last.uses[u].0
        == sid by {
        assert(after.uses[u] == last.uses[u]);
    }
    assert forall|u: int, def: u32|
        w.uses.len() <= u < after.uses.len() && last.uses[u].1 == v implies !#[trigger] crosses(last, u, def) by {
        assert(last.uses[u].0 == sid);
    }
}

proof fn lemma_found(names: Seq<Seq<char>>, name: Seq<char>, i: int, at: int)
    requires
        0 <= i <= at < names.len(),
        names[at] == name,
    ensures
        first_index(names, name, i) <= at,
    decreases at - i,
{
    if i < at {
        lemma_found(names, name, i + 1, at);
    }
}

/// The loop over a range is told from the other selectors.
proof fn lemma_to_do()
    ensures
        control_of("to:do:"@) == Some(Control::ToDo),
{
    reveal_strlit("to:do:");
    reveal_strlit("ifTrue:");
    reveal_strlit("ifFalse:");
    reveal_strlit("and:");
    reveal_strlit("or:");
    reveal_strlit("ifTrue:ifFalse:");
    reveal_strlit("ifFalse:ifTrue:");
    reveal_strlit("whileTrue:");
    reveal_strlit("whileFalse:");
    reveal_strlit("whileTrue");
    reveal_strlit("whileFalse");
    reveal_strlit("timesRepeat:");
    reveal_strlit("ifNil:");
    reveal_strlit("ifNotNil:");
    reveal_strlit("ifNil:ifNotNil:");
    reveal_strlit("ifNotNil:ifNil:");
    reveal_strlit("repeat");
    assert("to:do:"@[0] == 't');
    assert("timesRepeat:"@[1] == 'i');
}

} // verus!
