//! What dissolved control flow leaves: a model of the stack machine, and the value that is on the
//! stack behind each construct, by what its parts leave.
//!
//! The laws speak of any code that holds a construct's instructions in their places, so they hold
//! of the finished unit too.
use vstd::prelude::*;
#[allow(unused_imports)]
use crate::bytecode::Instr;
#[allow(unused_imports)]
use crate::frontend::ast::{BlockNode, Expr};
#[allow(unused_imports)]
use crate::frontend::capture::{control_of, send_positions, Control};
#[allow(unused_imports)]
use crate::frontend::codegen::{
    arity, block_names, bound, branch, dissolved, expr, hoisted, inlined, inside, meaning, not_nil_arm, succ, values, Cx,
    Out, SiteV, VarV,
};
#[allow(unused_imports)]
use crate::frontend::flow::{
    formed, formed_list, grew, lemma_arm_grew, lemma_dissolved_grew, lemma_expr_grew, lemma_values_grew,
    prefix, segment,
};

verus! {

// ── The machine ─────────────────────────────────────────────────────────

/// A value: nil, a boolean, a number, or any other object.
pub enum Val {
    Nil,
    True,
    False,
    Small(int),
    Other(int),
}

/// What the machine works on: the stack, the slots of the frame, and the rest, which only sends and
/// accesses outside the frame read and change.
#[verifier::ext_equal]
pub struct Mem {
    pub stack: Seq<Val>,
    pub temps: Seq<Val>,
    pub rest: int,
}

impl Mem {
    pub open spec fn push(self, v: Val) -> Mem {
        Mem { stack: self.stack.push(v), ..self }
    }

    pub open spec fn pop(self) -> Mem {
        Mem { stack: self.stack.drop_last(), ..self }
    }

    pub open spec fn top(self) -> Val {
        self.stack.last()
    }

    /// A slot of the frame set.
    pub open spec fn set(self, slot: u8, v: Val) -> Mem {
        Mem { temps: self.temps.update(slot as int, v), ..self }
    }
}

/// What lies outside the frame: what a push yields, what a store does, and what a send answers,
/// where it comes back.
pub struct World {
    pub load: spec_fn(Instr, int) -> (Val, int),
    pub store: spec_fn(Instr, Val, int) -> int,
    pub send: spec_fn(SiteV, Seq<Val>, int) -> Option<(Val, int)>,
}

/// One instruction: where the next one stands, and what it works on. None behind a return, and where
/// the machine does not go on.
pub open spec fn step(w: World, q: Out, at: int, m: Mem) -> Option<(int, Mem)> {
    if !(0 <= at < q.code.len()) {
        None
    } else {
        let i = q.code[at];
        let n = m.stack.len();
        match i {
            Instr::PushNil => Some((at + 1, m.push(Val::Nil))),
            Instr::PushTrue => Some((at + 1, m.push(Val::True))),
            Instr::PushFalse => Some((at + 1, m.push(Val::False))),
            Instr::PushSmi(v) => Some((at + 1, m.push(Val::Small(v as int)))),
            Instr::PushTemp(t) => Some((at + 1, m.push(m.temps[t as int]))),
            Instr::PushSelf | Instr::PushLiteral(_) | Instr::PushInstvar(_) | Instr::PushGlobal(_) => {
                let (v, rest) = (w.load)(i, m.rest);
                Some((at + 1, Mem { rest, ..m.push(v) }))
            },
            Instr::PushCtxTemp { .. } => {
                let (v, rest) = (w.load)(i, m.rest);
                Some((at + 1, Mem { rest, ..m.push(v) }))
            },
            Instr::PushClosure { ncopied, .. } => if ncopied == 0 {
                let (v, rest) = (w.load)(i, m.rest);
                Some((at + 1, Mem { rest, ..m.push(v) }))
            } else {
                None
            },
            Instr::StoreTempPop(t) => if n > 0 {
                Some((at + 1, m.pop().set(t, m.top())))
            } else {
                None
            },
            Instr::StoreInstvarPop(_) | Instr::StoreGlobalPop(_) => if n > 0 {
                Some((at + 1, Mem { rest: (w.store)(i, m.top(), m.rest), ..m.pop() }))
            } else {
                None
            },
            Instr::StoreCtxTempPop { .. } => if n > 0 {
                Some((at + 1, Mem { rest: (w.store)(i, m.top(), m.rest), ..m.pop() }))
            } else {
                None
            },
            Instr::Dup => if n > 0 {
                Some((at + 1, m.push(m.top())))
            } else {
                None
            },
            Instr::Pop => if n > 0 {
                Some((at + 1, m.pop()))
            } else {
                None
            },
            Instr::Send { ic, .. } => {
                let site = q.ics[ic as int];
                let k = n - site.argc - 1;
                if k < 0 {
                    None
                } else {
                    match (w.send)(site, m.stack.skip(k), m.rest) {
                        Some((v, rest)) => Some((at + 1, Mem { stack: m.stack.take(k).push(v), rest, ..m })),
                        None => None,
                    }
                }
            },
            Instr::JumpFwd(t) | Instr::JumpBack(t) => Some((t as int, m)),
            Instr::BrTrueFwd(t) => if n == 0 {
                None
            } else {
                match m.top() {
                    Val::True => Some((t as int, m.pop())),
                    Val::False => Some((at + 1, m.pop())),
                    _ => None,
                }
            },
            Instr::BrFalseFwd(t) => if n == 0 {
                None
            } else {
                match m.top() {
                    Val::False => Some((t as int, m.pop())),
                    Val::True => Some((at + 1, m.pop())),
                    _ => None,
                }
            },
            Instr::ReturnTos | Instr::ReturnSelf | Instr::BlockReturnTos | Instr::NlrTos => None,
        }
    }
}

/// A number of instructions.
pub open spec fn steps(w: World, q: Out, at: int, m: Mem, n: nat) -> Option<(int, Mem)>
    decreases n,
{
    if n == 0 {
        Some((at, m))
    } else {
        match step(w, q, at, m) {
            Some((a, k)) => steps(w, q, a, k, (n - 1) as nat),
            None => None,
        }
    }
}

/// Whether the code, entered at `a`, comes to `b`.
pub open spec fn goes(w: World, q: Out, a: int, m: Mem, b: int, k: Mem) -> bool {
    exists|n: nat| #[trigger] steps(w, q, a, m, n) == Some((b, k))
}

proof fn lemma_steps(w: World, q: Out, a: int, m: Mem, n: nat, b: int, k: Mem, i: nat, c: int, l: Mem)
    requires
        steps(w, q, a, m, n) == Some((b, k)),
        steps(w, q, b, k, i) == Some((c, l)),
    ensures
        steps(w, q, a, m, n + i) == Some((c, l)),
    decreases n,
{
    if n > 0 {
        let (x, y) = step(w, q, a, m)->0;
        lemma_steps(w, q, x, y, (n - 1) as nat, b, k, i, c, l);
    }
}

/// One way after the other.
pub(crate) proof fn lemma_on(w: World, q: Out, a: int, m: Mem, b: int, k: Mem, c: int, l: Mem)
    requires
        goes(w, q, a, m, b, k),
        goes(w, q, b, k, c, l),
    ensures
        goes(w, q, a, m, c, l),
{
    let n = choose|n: nat| #[trigger] steps(w, q, a, m, n) == Some((b, k));
    let i = choose|i: nat| #[trigger] steps(w, q, b, k, i) == Some((c, l));
    lemma_steps(w, q, a, m, n, b, k, i, c, l);
    assert(steps(w, q, a, m, n + i) == Some((c, l)));
}

/// One instruction more.
pub(crate) proof fn lemma_one_on(w: World, q: Out, a: int, m: Mem, b: int, k: Mem, c: int, l: Mem)
    requires
        goes(w, q, a, m, b, k),
        step(w, q, b, k) == Some((c, l)),
    ensures
        goes(w, q, a, m, c, l),
{
    assert(steps(w, q, c, l, 0) == Some((c, l)));
    assert(steps(w, q, b, k, 1) == Some((c, l)));
    lemma_on(w, q, a, m, b, k, c, l);
}

/// No instruction.
pub(crate) proof fn lemma_here(w: World, q: Out, a: int, m: Mem)
    ensures
        goes(w, q, a, m, a, m),
{
    assert(steps(w, q, a, m, 0) == Some((a, m)));
}

/// A branch on a boolean.
pub(crate) proof fn lemma_branch(w: World, q: Out, a: int, m: Mem, at: int, over: bool, to: int, k: Mem, v: Val)
    requires
        goes(w, q, a, m, at, k.push(v)),
        0 <= at < q.code.len(),
        0 <= to <= usize::MAX,
        q.code[at] == branch(over, to as usize),
        v is True || v is False,
    ensures
        (v is True) == over ==> goes(w, q, a, m, to, k),
        (v is True) != over ==> goes(w, q, a, m, at + 1, k),
{
    assert(k.push(v).pop() =~= k);
    if (v is True) == over {
        lemma_one_on(w, q, a, m, at, k.push(v), to, k);
    } else {
        lemma_one_on(w, q, a, m, at, k.push(v), at + 1, k);
    }
}

/// A send of one argument.
proof fn lemma_binary(w: World, q: Out, a: int, m: Mem, at: int, k: Mem, x: Val, y: Val, r: Val, rest: int)
    requires
        goes(w, q, a, m, at, k.push(x).push(y)),
        0 <= at < q.code.len(),
        q.code[at] matches Instr::Send { ic, .. } && q.ics[ic as int].argc == 1 && (w.send)(
            q.ics[ic as int],
            seq![x, y],
            k.rest,
        ) == Some((r, rest)),
    ensures
        goes(w, q, a, m, at + 1, Mem { rest, ..k.push(r) }),
{
    let s = k.push(x).push(y);
    assert(s.stack.skip(s.stack.len() - 2) =~= seq![x, y]);
    assert(s.stack.take(s.stack.len() - 2) =~= k.stack);
    lemma_one_on(w, q, a, m, at, s, at + 1, Mem { rest, ..k.push(r) });
}

// ── Constructs ──────────────────────────────────────────────────────────

/// A send where it is compiled: the unit around it, and what was emitted before it.
pub struct Site<'a> {
    pub cx: Cx<'a>,
    pub in_block: bool,
    pub h: Seq<(Seq<char>, u8)>,
    pub sid: u32,
    pub e: Expr,
    pub o: Out,
}

impl<'a> Site<'a> {
    pub open spec fn receiver(self) -> Expr {
        match self.e {
            Expr::Send { receiver, .. } => *receiver,
            _ => self.e,
        }
    }

    pub open spec fn args(self) -> Seq<Expr> {
        match self.e {
            Expr::Send { args, .. } => args@,
            _ => Seq::empty(),
        }
    }

    /// Whether the send is dissolved as a construct, its parts are trees as they are parsed, and its
    /// code was emitted.
    #[verifier::opaque]
    pub open spec fn dissolves_as(self, c: Control) -> bool {
        &&& self.e matches Expr::Send { receiver, selector, args, is_super, .. } && control_of(selector@) == Some(c)
            && send_positions(selector@, *receiver, args@, is_super) is Some
        &&& formed(self.receiver()) || segment(self.receiver())
        &&& formed_list(self.args(), self.args().len() as int)
        &&& self.out().err is None
        &&& self.out().code.len() <= usize::MAX
        &&& self.out().ics.len() <= u32::MAX
    }

    /// The code with that of the send.
    #[verifier::opaque]
    pub open spec fn out(self) -> Out {
        expr(self.cx, self.in_block, self.h, self.sid, self.e, self.o)
    }

    /// Where the send's code starts.
    pub open spec fn start(self) -> int {
        self.o.code.len() as int
    }

    /// Where it ends.
    pub open spec fn end(self) -> int {
        self.out().code.len() as int
    }

    /// The code with that of an expression.
    pub open spec fn value(self, e: Expr, o: Out) -> Out {
        expr(self.cx, self.in_block, self.h, self.sid, e, o)
    }

    /// The code with that of a dissolved block.
    pub open spec fn block(self, e: Expr, o: Out) -> Out {
        dissolved(self.cx, self.in_block, self.h, self.sid, e, o)
    }

    /// The code with that of a block for a value other than nil.
    pub open spec fn arm(self, e: Expr, o: Out) -> Out {
        not_nil_arm(self.cx, self.in_block, self.h, self.sid, e, o)
    }

    /// Whether some code holds the send's instructions in their places, and its send sites.
    pub open spec fn stands_in(self, q: Out) -> bool {
        &&& self.end() <= q.code.len()
        &&& forall|k: int| self.start() <= k < self.end() ==> #[trigger] q.code[k] == self.out().code[k]
        &&& prefix(self.out().ics, q.ics)
    }

    /// The code up to the receiver's value.
    pub open spec fn received(self) -> Out {
        self.value(self.receiver(), self.o)
    }

    /// Where the receiver's value is on the stack.
    pub open spec fn received_at(self) -> int {
        self.received().code.len() as int
    }
}

/// The parts of a dissolved send.
spec fn shaped(s: Site, c: Control) -> bool {
    &&& s.e matches Expr::Send { selector, .. } && control_of(selector@) == Some(c)
    &&& s.args().len() == arity(c)
    &&& s.args().len() >= 1 ==> formed(s.args()[0]) && formed(s.args().last())
    &&& s.args().len() >= 1 ==> s.args().last() is Block
    &&& !(c is ToDo) && s.args().len() >= 1 ==> s.args()[0] is Block
    &&& c is WhileTrue || c is WhileFalse || c is Repeat || c is WhileTrueDo || c is WhileFalseDo ==> s.receiver() is Block
    &&& formed(s.receiver()) || segment(s.receiver())
    &&& s.out() == inlined(s.cx, s.in_block, s.h, s.sid, s.e, s.o)
    &&& s.out().err is None
    &&& s.out().code.len() <= usize::MAX
    &&& s.out().ics.len() <= u32::MAX
}

#[verifier::spinoff_prover]
#[verifier::rlimit(40)]
proof fn lemma_args(s: Site, c: Control)
    requires
        s.dissolves_as(c),
    ensures
        shaped(s, c),
{
    reveal(Site::dissolves_as);
    reveal(Site::out);
    let args = s.args();
    if args.len() >= 1 {
        lemma_each(args, args.len() as int, 0);
        lemma_each(args, args.len() as int, args.len() - 1);
    }
}

proof fn lemma_each(es: Seq<Expr>, k: int, i: int)
    requires
        formed_list(es, k),
        0 <= i < k <= es.len(),
    ensures
        formed(es[i]),
    decreases k,
{
    if i < k - 1 {
        lemma_each(es, k - 1, i);
    }
}

/// A branch at `o`'s end, the code up to `arm`, the jump, the code up to `last`, both filled in.
pub open spec fn forked(o: Out, over: bool, arm: Out) -> Out {
    let j = arm.put(Instr::JumpFwd(0));
    j.fix(o.code.len() as int, branch(over, j.here()))
}

proof fn lemma_fork_code(o: Out, b: Out, over: bool, arm: Out, last: Out, r: Out)
    requires
        o.err is None,
        b.err is None,
        o.code.len() < b.code.len(),
        forall|k: int| 0 <= k < o.code.len() ==> #[trigger] b.code[k] == o.code[k],
        prefix(o.ics, b.ics),
        grew(b, arm),
        grew(forked(o, over, arm), last),
        r == last.fix(arm.code.len() as int, Instr::JumpFwd(last.here())),
        r.code.len() <= usize::MAX,
    ensures
        o.code.len() < arm.code.len() < r.code.len(),
        r.code.len() == last.code.len(),
        r.code[o.code.len() as int] == branch(over, (arm.code.len() + 1) as usize),
        r.code[arm.code.len() as int] == Instr::JumpFwd(r.code.len() as usize),
        forall|k: int| o.code.len() < k < b.code.len() ==> #[trigger] r.code[k] == b.code[k],
        forall|k: int| 0 <= k < o.code.len() ==> #[trigger] r.code[k] == o.code[k],
        forall|k: int| arm.code.len() < k < last.code.len() ==> #[trigger] r.code[k] == last.code[k],
        prefix(o.ics, r.ics),
{
    let f = forked(o, over, arm);
    assert(f.code.len() == arm.code.len() + 1);
    assert(f.code[o.code.len() as int] == last.code[o.code.len() as int]);
    assert forall|k: int| o.code.len() < k < b.code.len() implies #[trigger] r.code[k] == b.code[k] by {
        assert(b.code[k] == arm.code[k]);
        assert(f.code[k] == last.code[k]);
    }
    assert forall|k: int| 0 <= k < o.code.len() implies #[trigger] r.code[k] == o.code[k] by {
        assert(b.code[k] == o.code[k]);
        assert(b.code[k] == arm.code[k]);
        assert(f.code[k] == last.code[k]);
    }
    assert forall|i: int| 0 <= i < o.ics.len() implies o.ics[i] == #[trigger] r.ics[i] by {
        assert(o.ics[i] == b.ics[i]);
        assert(b.ics[i] == arm.ics[i]);
        assert(f.ics[i] == last.ics[i]);
    }
}

// ── Conditionals ────────────────────────────────────────────────────────

/// What a conditional with one block leaves where the block does not run.
pub open spec fn otherwise(c: Control) -> Val {
    match c {
        Control::And => Val::False,
        Control::Or => Val::True,
        _ => Val::Nil,
    }
}

impl<'a> Site<'a> {
    /// Where the first block of a conditional ends; it starts behind the branch.
    pub open spec fn then_end(self, over: bool, e: Expr) -> int {
        self.block(e, self.received().put(branch(over, 0))).code.len() as int
    }
}

/// `ifTrue:` and `and:` run their block where the receiver is true, `ifFalse:` and `or:` where it is
/// false, and leave the block's value. Else `ifTrue:` and `ifFalse:` leave nil, `and:` leaves false
/// and `or:` true.
pub proof fn law_conditional_value(s: Site, c: Control, w: World, q: Out, m: Mem, v: Val, k: Mem)
    requires
        c is IfTrue || c is IfFalse || c is And || c is Or,
        s.dissolves_as(c),
        s.stands_in(q),
        v is True || v is False,
        goes(w, q, s.start(), m, s.received_at(), k.push(v)),
    ensures
        ({
            let over = c is IfFalse || c is Or;
            &&& (v is True) == over ==> goes(w, q, s.start(), m, s.end(), k.push(otherwise(c)))
            &&& (v is True) != over ==> forall|l: Mem|
                #[trigger] goes(w, q, s.received_at() + 1, k, s.then_end(over, s.args()[0]), l) ==> goes(
                    w,
                    q,
                    s.start(),
                    m,
                    s.end(),
                    l,
                )
        }),
{
    lemma_args(s, c);
    let over = c is IfFalse || c is Or;
    let i = if c is And {
        Instr::PushFalse
    } else if c is Or {
        Instr::PushTrue
    } else {
        Instr::PushNil
    };
    let o1 = s.received();
    let b = o1.put(branch(over, 0));
    let arm = s.block(s.args()[0], b);
    let f = forked(o1, over, arm);
    let last = f.put(i);
    let r = last.fix(arm.code.len() as int, Instr::JumpFwd(last.here()));
    assert(arm.err is None);
    lemma_dissolved_grew(s.cx, s.in_block, s.h, s.sid, s.args()[0], b);
    assert(o1.err is None);
    lemma_expr_grew(s.cx, s.in_block, s.h, s.sid, s.receiver(), s.o);
    assert(s.out() == r);
    lemma_fork_code(o1, b, over, arm, last, r);
    let at = o1.code.len() as int;
    let mid = arm.code.len() as int;
    assert(q.code[at] == r.code[at]);
    assert(q.code[mid] == r.code[mid]);
    assert(q.code[mid + 1] == r.code[mid + 1]);
    assert(last.code[mid + 1] == i);
    lemma_branch(w, q, s.start(), m, at, over, mid + 1, k, v);
    if (v is True) == over {
        lemma_one_on(w, q, s.start(), m, mid + 1, k, mid + 2, k.push(otherwise(c)));
    } else {
        assert forall|l: Mem| #[trigger] goes(w, q, at + 1, k, s.then_end(over, s.args()[0]), l) implies goes(
            w,
            q,
            s.start(),
            m,
            s.end(),
            l,
        ) by {
            lemma_on(w, q, s.start(), m, at + 1, k, mid, l);
            lemma_one_on(w, q, s.start(), m, mid, l, s.end(), l);
        }
    }
}

/// `ifTrue:ifFalse:` and `ifFalse:ifTrue:` run the block that the receiver names and leave its value.
pub proof fn law_two_armed_value(s: Site, c: Control, w: World, q: Out, m: Mem, v: Val, k: Mem)
    requires
        c is IfTrueIfFalse || c is IfFalseIfTrue,
        s.dissolves_as(c),
        s.stands_in(q),
        v is True || v is False,
        goes(w, q, s.start(), m, s.received_at(), k.push(v)),
    ensures
        ({
            let t = if c is IfTrueIfFalse {
                s.args()[0]
            } else {
                s.args()[1]
            };
            let mid = s.then_end(false, t);
            &&& v is True ==> forall|l: Mem|
                #[trigger] goes(w, q, s.received_at() + 1, k, mid, l) ==> goes(w, q, s.start(), m, s.end(), l)
            &&& v is False ==> forall|l: Mem|
                #[trigger] goes(w, q, mid + 1, k, s.end(), l) ==> goes(w, q, s.start(), m, s.end(), l)
        }),
{
    lemma_args(s, c);
    let (t, f) = if c is IfTrueIfFalse {
        (s.args()[0], s.args()[1])
    } else {
        (s.args()[1], s.args()[0])
    };
    let o1 = s.received();
    let b = o1.put(branch(false, 0));
    let arm = s.block(t, b);
    let g = forked(o1, false, arm);
    let last = s.block(f, g);
    let r = last.fix(arm.code.len() as int, Instr::JumpFwd(last.here()));
    if last.err is None {
        lemma_dissolved_grew(s.cx, s.in_block, s.h, s.sid, f, g);
    }
    lemma_dissolved_grew(s.cx, s.in_block, s.h, s.sid, t, b);
    lemma_expr_grew(s.cx, s.in_block, s.h, s.sid, s.receiver(), s.o);
    assert(s.out() == r);
    lemma_fork_code(o1, b, false, arm, last, r);
    let at = o1.code.len() as int;
    let mid = arm.code.len() as int;
    assert(q.code[at] == r.code[at]);
    assert(q.code[mid] == r.code[mid]);
    lemma_branch(w, q, s.start(), m, at, false, mid + 1, k, v);
    if v is True {
        assert forall|l: Mem| #[trigger] goes(w, q, at + 1, k, mid, l) implies goes(w, q, s.start(), m, s.end(), l) by {
            lemma_on(w, q, s.start(), m, at + 1, k, mid, l);
            lemma_one_on(w, q, s.start(), m, mid, l, s.end(), l);
        }
    } else {
        assert forall|l: Mem| #[trigger] goes(w, q, mid + 1, k, s.end(), l) implies goes(
            w,
            q,
            s.start(),
            m,
            s.end(),
            l,
        ) by {
            lemma_on(w, q, s.start(), m, mid + 1, k, s.end(), l);
        }
    }
}

// ── Loops on a condition ────────────────────────────────────────────────

impl<'a> Site<'a> {
    /// The code up to the value of a loop's condition, a dissolved block.
    pub open spec fn condition(self) -> Out {
        self.block(self.receiver(), self.o)
    }

    /// Where the condition's value is on the stack.
    pub open spec fn condition_at(self) -> int {
        self.condition().code.len() as int
    }

    /// Where the body of a loop on a condition ends; it starts behind the branch.
    pub open spec fn round_end(self, over: bool) -> int {
        self.block(self.args()[0], self.condition().put(branch(over, 0))).code.len() as int
    }
}

/// `whileTrue:` goes on where its condition is true, `whileFalse:` where it is false: the block runs,
/// its value is dropped, and the loop starts again. Else the loop leaves nil.
pub proof fn law_loop_value(s: Site, c: Control, w: World, q: Out, m: Mem, v: Val, k: Mem)
    requires
        c is WhileTrueDo || c is WhileFalseDo,
        s.dissolves_as(c),
        s.stands_in(q),
        v is True || v is False,
        goes(w, q, s.start(), m, s.condition_at(), k.push(v)),
    ensures
        ({
            let over = c is WhileFalseDo;
            &&& (v is True) == over ==> goes(w, q, s.start(), m, s.end(), k.push(Val::Nil))
            &&& (v is True) != over ==> forall|l: Mem|
                #[trigger] goes(w, q, s.condition_at() + 1, k, s.round_end(over), l) && l.stack.len() > 0 ==> goes(
                    w,
                    q,
                    s.start(),
                    m,
                    s.start(),
                    l.pop(),
                )
        }),
{
    lemma_args(s, c);
    let over = c is WhileFalseDo;
    let o1 = s.condition();
    let b = o1.put(branch(over, 0));
    let body = s.block(s.args()[0], b);
    let o2 = body.put(Instr::Pop).put(Instr::JumpBack(s.o.here()));
    let r = o2.fix(o1.code.len() as int, branch(over, o2.here())).put(Instr::PushNil);
    assert(s.out() == r);
    lemma_dissolved_grew(s.cx, s.in_block, s.h, s.sid, s.args()[0], b);
    lemma_dissolved_grew(s.cx, s.in_block, s.h, s.sid, s.receiver(), s.o);
    assert(s.out() == r);
    let at = o1.code.len() as int;
    let end = body.code.len() as int;
    assert(r.code.len() == end + 3);
    assert(r.code[at] == branch(over, (end + 2) as usize));
    assert(r.code[end] == Instr::Pop);
    assert(r.code[end + 1] == Instr::JumpBack(s.o.here()));
    assert(r.code[end + 2] == Instr::PushNil);
    assert(q.code[at] == r.code[at]);
    assert(q.code[end] == r.code[end]);
    assert(q.code[end + 1] == r.code[end + 1]);
    assert(q.code[end + 2] == r.code[end + 2]);
    lemma_branch(w, q, s.start(), m, at, over, end + 2, k, v);
    if (v is True) == over {
        lemma_one_on(w, q, s.start(), m, end + 2, k, s.end(), k.push(Val::Nil));
    } else {
        assert forall|l: Mem|
            #[trigger] goes(w, q, at + 1, k, s.round_end(over), l) && l.stack.len() > 0 implies goes(
            w,
            q,
            s.start(),
            m,
            s.start(),
            l.pop(),
        ) by {
            lemma_on(w, q, s.start(), m, at + 1, k, end, l);
            lemma_one_on(w, q, s.start(), m, end, l, end + 1, l.pop());
            lemma_one_on(w, q, s.start(), m, end + 1, l.pop(), s.start(), l.pop());
        }
    }
}

/// `whileTrue` starts again where its block leaves true, `whileFalse` where it leaves false. Else the
/// loop leaves nil.
pub proof fn law_bare_loop_value(s: Site, c: Control, w: World, q: Out, m: Mem, v: Val, k: Mem)
    requires
        c is WhileTrue || c is WhileFalse,
        s.dissolves_as(c),
        s.stands_in(q),
        v is True || v is False,
        goes(w, q, s.start(), m, s.condition_at(), k.push(v)),
    ensures
        (v is True) == (c is WhileFalse) ==> goes(w, q, s.start(), m, s.end(), k.push(Val::Nil)),
        (v is True) != (c is WhileFalse) ==> goes(w, q, s.start(), m, s.start(), k),
{
    lemma_args(s, c);
    let over = c is WhileFalse;
    let o1 = s.condition();
    let o2 = o1.put(branch(over, 0)).put(Instr::JumpBack(s.o.here()));
    let r = o2.fix(o1.code.len() as int, branch(over, o2.here())).put(Instr::PushNil);
    assert(s.out() == r);
    lemma_dissolved_grew(s.cx, s.in_block, s.h, s.sid, s.receiver(), s.o);
    assert(s.out() == r);
    let at = o1.code.len() as int;
    assert(r.code.len() == at + 3);
    assert(r.code[at] == branch(over, (at + 2) as usize));
    assert(r.code[at + 1] == Instr::JumpBack(s.o.here()));
    assert(r.code[at + 2] == Instr::PushNil);
    assert(q.code[at] == r.code[at]);
    assert(q.code[at + 1] == r.code[at + 1]);
    assert(q.code[at + 2] == r.code[at + 2]);
    lemma_branch(w, q, s.start(), m, at, over, at + 2, k, v);
    if (v is True) == over {
        lemma_one_on(w, q, s.start(), m, at + 2, k, s.end(), k.push(Val::Nil));
    } else {
        lemma_one_on(w, q, s.start(), m, at + 1, k, s.start(), k);
    }
}

/// `repeat` drops what its block leaves and starts again.
pub proof fn law_repeat_starts_again(s: Site, w: World, q: Out, m: Mem, l: Mem)
    requires
        s.dissolves_as(Control::Repeat),
        s.stands_in(q),
        goes(w, q, s.start(), m, s.condition_at(), l),
        l.stack.len() > 0,
    ensures
        goes(w, q, s.start(), m, s.start(), l.pop()),
{
    lemma_args(s, Control::Repeat);
    let o1 = s.condition();
    let r = o1.put(Instr::Pop).put(Instr::JumpBack(s.o.here())).put(Instr::PushNil);
    assert(s.out() == r);
    lemma_dissolved_grew(s.cx, s.in_block, s.h, s.sid, s.receiver(), s.o);
    assert(s.out() == r);
    let at = o1.code.len() as int;
    assert(r.code[at] == Instr::Pop);
    assert(r.code[at + 1] == Instr::JumpBack(s.o.here()));
    assert(q.code[at] == r.code[at]);
    assert(q.code[at + 1] == r.code[at + 1]);
    lemma_one_on(w, q, s.start(), m, at, l, at + 1, l.pop());
    lemma_one_on(w, q, s.start(), m, at + 1, l.pop(), s.start(), l.pop());
}

// ── Tests for nil ───────────────────────────────────────────────────────

/// What a send of one argument answers.
pub open spec fn answer(w: World, selector: Seq<char>, a: Val, b: Val, rest: int) -> Option<(Val, int)> {
    (w.send)(SiteV { selector, argc: 1, super_: false }, seq![a, b], rest)
}

/// The send that tests for nil answers whether the value is nil, and changes nothing.
pub open spec fn knows_nil(w: World) -> bool {
    forall|v: Val, rest: int|
        #[trigger] answer(w, "=="@, v, Val::Nil, rest) == Some(
            (
                if v is Nil {
                    Val::True
                } else {
                    Val::False
                },
                rest,
            ),
        )
}

/// The code that tests a value for nil, and keeps it: three instructions.
proof fn lemma_nil_test(w: World, s: Site, q: Out, m: Mem, v: Val, k: Mem)
    requires
        knows_nil(w),
        s.received().err is None,
        s.received().ics.len() < u32::MAX,
        s.received_at() + 3 <= q.code.len(),
        forall|i: int|
            s.received_at() <= i < s.received_at() + 3 ==> #[trigger] q.code[i] == s.received().nil_test().code[i],
        prefix(s.received().nil_test().ics, q.ics),
        goes(w, q, s.start(), m, s.received_at(), k.push(v)),
    ensures
        goes(
            w,
            q,
            s.start(),
            m,
            s.received_at() + 3,
            k.push(v).push(
                if v is Nil {
                    Val::True
                } else {
                    Val::False
                },
            ),
        ),
{
    let o1 = s.received();
    let at = s.received_at();
    let t = o1.nil_test();
    assert(t.code[at] == Instr::Dup);
    assert(t.code[at + 1] == Instr::PushNil);
    assert(t.code[at + 2] == Instr::Send { ic: o1.ics.len() as u32, super_: false });
    assert(q.code[at] == t.code[at]);
    assert(q.code[at + 1] == t.code[at + 1]);
    assert(q.code[at + 2] == t.code[at + 2]);
    assert(t.ics[o1.ics.len() as int] == q.ics[o1.ics.len() as int]);
    let kv = k.push(v);
    lemma_one_on(w, q, s.start(), m, at, kv, at + 1, kv.push(v));
    lemma_one_on(w, q, s.start(), m, at + 1, kv.push(v), at + 2, kv.push(v).push(Val::Nil));
    let r = if v is Nil {
        Val::True
    } else {
        Val::False
    };
    assert(answer(w, "=="@, v, Val::Nil, k.rest) == Some((r, k.rest)));
    lemma_binary(w, q, s.start(), m, at + 2, kv, v, Val::Nil, r, k.rest);
    assert(Mem { rest: k.rest, ..kv.push(r) } =~= kv.push(r));
}

impl<'a> Site<'a> {
    /// The code up to the branch of a test for nil.
    pub open spec fn compared(self) -> Out {
        self.received().nil_test()
    }

    /// Where the first block of a test for nil starts, behind the branch; the receiver's value is on
    /// the stack.
    pub open spec fn first_at(self) -> int {
        self.received_at() + 4
    }

    /// Where it ends. A block for nil is preceded by the instruction that drops the value.
    pub open spec fn first_end(self, nil_first: bool) -> int {
        if nil_first {
            self.block(self.args()[0], self.compared().put(branch(false, 0)).put(Instr::Pop)).code.len() as int
        } else {
            self.arm(self.args()[0], self.compared().put(branch(true, 0))).code.len() as int
        }
    }
}

/// The code of a test for nil: a branch around its first block, to its second one where it has one.
pub open spec fn nil_arms(s: Site, c: Control) -> (Out, Out) {
    let o1 = s.compared();
    match c {
        Control::IfNil => {
            let arm = s.block(s.args()[0], o1.put(branch(false, 0)).put(Instr::Pop));
            (arm, forked(o1, false, arm))
        },
        Control::IfNotNil => {
            let arm = s.arm(s.args()[0], o1.put(branch(true, 0)));
            (arm, forked(o1, true, arm))
        },
        Control::IfNilIfNotNil => {
            let arm = s.block(s.args()[0], o1.put(branch(false, 0)).put(Instr::Pop));
            (arm, s.arm(s.args()[1], forked(o1, false, arm)))
        },
        _ => {
            let arm = s.arm(s.args()[0], o1.put(branch(true, 0)));
            (arm, s.block(s.args()[1], forked(o1, true, arm).put(Instr::Pop)))
        },
    }
}

/// The code of a test for nil with one block, as it is put together.
spec fn short_fork(o: Out, over: bool, arm: Out) -> Out {
    let j = arm.put(Instr::JumpFwd(0));
    j.fix(o.code.len() as int, branch(over, j.here())).fix(j.code.len() - 1, Instr::JumpFwd(j.here()))
}

proof fn lemma_short_fork(o: Out, over: bool, arm: Out)
    requires
        arm.err is None,
        o.code.len() <= arm.code.len(),
    ensures
        ({
            let last = forked(o, over, arm);
            short_fork(o, over, arm) == last.fix(arm.code.len() as int, Instr::JumpFwd(last.here()))
        }),
{
}

#[verifier::spinoff_prover]
#[verifier::rlimit(40)]
proof fn lemma_if_nil_out(s: Site)
    requires
        shaped(s, Control::IfNil),
    ensures
        ({
            let (arm, last) = nil_arms(s, Control::IfNil);
            s.out() === short_fork(s.compared(), false, arm) && last === forked(s.compared(), false, arm)
        }),
{
    match s.e {
        Expr::Send { receiver, selector, args, .. } => {
            let (cx, in_block, h, sid) = (s.cx, s.in_block, s.h, s.sid);
            let r = expr(cx, in_block, h, sid, *receiver, s.o);
            let o1 = r.nil_test();
            let arm = dissolved(cx, in_block, h, sid, args@[0], o1.put(branch(false, 0)).put(Instr::Pop));
            assert(s.received() === r);
            assert(inlined(cx, in_block, h, sid, s.e, s.o) === short_fork(o1, false, arm));
        },
        _ => {},
    }
}

#[verifier::spinoff_prover]
#[verifier::rlimit(40)]
proof fn lemma_if_not_nil_out(s: Site)
    requires
        shaped(s, Control::IfNotNil),
    ensures
        ({
            let (arm, last) = nil_arms(s, Control::IfNotNil);
            s.out() === short_fork(s.compared(), true, arm) && last === forked(s.compared(), true, arm)
        }),
{
    match s.e {
        Expr::Send { receiver, selector, args, .. } => {
            let (cx, in_block, h, sid) = (s.cx, s.in_block, s.h, s.sid);
            let r = expr(cx, in_block, h, sid, *receiver, s.o);
            let o1 = r.nil_test();
            let arm = not_nil_arm(cx, in_block, h, sid, args@[0], o1.put(branch(true, 0)));
            assert(s.received() === r);
            assert(inlined(cx, in_block, h, sid, s.e, s.o) === short_fork(o1, true, arm));
        },
        _ => {},
    }
}

#[verifier::spinoff_prover]
proof fn lemma_nil_else_out(s: Site)
    requires
        shaped(s, Control::IfNilIfNotNil),
    ensures
        ({
            let (arm, last) = nil_arms(s, Control::IfNilIfNotNil);
            &&& arm.err is None
            &&& last.err is None
            &&& grew(forked(s.compared(), false, arm), last)
            &&& s.out() == last.fix(arm.code.len() as int, Instr::JumpFwd(last.here()))
        }),
{
    match s.e {
        Expr::Send { receiver, selector, args, .. } => {
            let (cx, in_block, h, sid) = (s.cx, s.in_block, s.h, s.sid);
            let r = expr(cx, in_block, h, sid, *receiver, s.o);
            let o1 = r.nil_test();
            let arm = dissolved(cx, in_block, h, sid, args@[0], o1.put(branch(false, 0)).put(Instr::Pop));
            let o2 = arm.put(Instr::JumpFwd(0));
            let f = o2.fix(o1.code.len() as int, branch(false, o2.here()));
            let last = not_nil_arm(cx, in_block, h, sid, args@[1], f);
            assert(last.err is None);
            lemma_arm_grew(cx, in_block, h, sid, args@[1], f);
            assert(o2.code.len() - 1 == arm.code.len());
        },
        _ => {},
    }
}

#[verifier::spinoff_prover]
proof fn lemma_not_nil_else_out(s: Site)
    requires
        shaped(s, Control::IfNotNilIfNil),
    ensures
        ({
            let (arm, last) = nil_arms(s, Control::IfNotNilIfNil);
            &&& arm.err is None
            &&& last.err is None
            &&& grew(forked(s.compared(), true, arm).put(Instr::Pop), last)
            &&& s.out() == last.fix(arm.code.len() as int, Instr::JumpFwd(last.here()))
        }),
{
    match s.e {
        Expr::Send { receiver, selector, args, .. } => {
            let (cx, in_block, h, sid) = (s.cx, s.in_block, s.h, s.sid);
            let r = expr(cx, in_block, h, sid, *receiver, s.o);
            let o1 = r.nil_test();
            let arm = not_nil_arm(cx, in_block, h, sid, args@[0], o1.put(branch(true, 0)));
            let o2 = arm.put(Instr::JumpFwd(0));
            let f = o2.fix(o1.code.len() as int, branch(true, o2.here()));
            let fp = f.put(Instr::Pop);
            let last = dissolved(cx, in_block, h, sid, args@[1], fp);
            assert(last.err is None);
            lemma_dissolved_grew(cx, in_block, h, sid, args@[1], fp);
            assert(o2.code.len() - 1 == arm.code.len());
        },
        _ => {},
    }
}

/// The code of a test for nil.
#[verifier::spinoff_prover]
proof fn lemma_nil_code(s: Site, c: Control)
    requires
        c is IfNil || c is IfNotNil || c is IfNilIfNotNil || c is IfNotNilIfNil,
        shaped(s, c),
    ensures
        ({
            let r = s.out();
            let o1 = s.compared();
            let at = o1.code.len() as int;
            let nil_first = c is IfNil || c is IfNilIfNotNil;
            let mid = s.first_end(nil_first);
            &&& grew(s.o, s.received())
            &&& at < mid < s.end()
            &&& c is IfNil || c is IfNotNil ==> s.end() == mid + 1
            &&& forall|k: int| 0 <= k < at ==> #[trigger] r.code[k] == o1.code[k]
            &&& prefix(o1.ics, r.ics)
            &&& r.code[at] == branch(!nil_first, (mid + 1) as usize)
            &&& r.code[mid] == Instr::JumpFwd(s.end() as usize)
            &&& nil_first ==> at + 1 < mid && r.code[at + 1] == Instr::Pop
            &&& c is IfNotNilIfNil ==> mid + 1 < s.end() && r.code[mid + 1] == Instr::Pop
        }),
{
    let o1 = s.compared();
    let nil_first = c is IfNil || c is IfNilIfNotNil;
    let (arm, last) = nil_arms(s, c);
    match c {
        Control::IfNil => lemma_if_nil_out(s),
        Control::IfNotNil => lemma_if_not_nil_out(s),
        Control::IfNilIfNotNil => lemma_nil_else_out(s),
        _ => lemma_not_nil_else_out(s),
    }
    assert(arm.err is None);
    let b = if nil_first {
        o1.put(branch(false, 0)).put(Instr::Pop)
    } else {
        o1.put(branch(true, 0))
    };
    if nil_first {
        lemma_dissolved_grew(s.cx, s.in_block, s.h, s.sid, s.args()[0], b);
    } else {
        lemma_arm_grew(s.cx, s.in_block, s.h, s.sid, s.args()[0], b);
    }
    if c is IfNil || c is IfNotNil {
        lemma_short_fork(o1, !nil_first, arm);
    }
    lemma_expr_grew(s.cx, s.in_block, s.h, s.sid, s.receiver(), s.o);
    if c is IfNotNilIfNil {
        let f = forked(o1, true, arm);
        let fp = f.put(Instr::Pop);
        assert forall|i: int| 0 <= i < f.code.len() implies f.code[i] == #[trigger] last.code[i] by {
            assert(fp.code[i] == last.code[i]);
        }
        assert(fp.code[arm.code.len() + 1int] == last.code[arm.code.len() + 1int]);
        assert(grew(f, last));
    }
    lemma_fork_code(o1, b, !nil_first, arm, last, s.out());
    let at = o1.code.len() as int;
    if nil_first {
        assert(b.code[at + 1] == Instr::Pop);
        assert(s.out().code[at + 1] == b.code[at + 1]);
    }
}

/// `ifNil:` leaves its block's value for nil and the receiver's for any other; `ifNotNil:` its block's
/// value for any but nil, and nil for nil. The block for nil runs without the receiver's value on the
/// stack, the other one with it.
#[verifier::spinoff_prover]
pub proof fn law_nil_test_value(s: Site, c: Control, w: World, q: Out, m: Mem, v: Val, k: Mem)
    requires
        c is IfNil || c is IfNotNil,
        s.dissolves_as(c),
        s.stands_in(q),
        knows_nil(w),
        goes(w, q, s.start(), m, s.received_at(), k.push(v)),
    ensures
        (v is Nil) != (c is IfNil) ==> goes(w, q, s.start(), m, s.end(), k.push(v)),
        v is Nil && c is IfNil ==> forall|l: Mem|
            #[trigger] goes(w, q, s.first_at() + 1, k, s.first_end(true), l) ==> goes(w, q, s.start(), m, s.end(), l),
        !(v is Nil) && c is IfNotNil ==> forall|l: Mem|
            #[trigger] goes(w, q, s.first_at(), k.push(v), s.first_end(false), l) ==> goes(
                w,
                q,
                s.start(),
                m,
                s.end(),
                l,
            ),
{
    let nil_first = c is IfNil;
    let over = !nil_first;
    let o1 = s.compared();
    let r = s.out();
    lemma_args(s, c);
    lemma_nil_code(s, c);
    lemma_nil_front(s, q, r, o1);
    lemma_nil_test(w, s, q, m, v, k);
    let at = o1.code.len() as int;
    let mid = s.first_end(nil_first);
    let t = if v is Nil {
        Val::True
    } else {
        Val::False
    };
    assert(q.code[at] == r.code[at]);
    assert(q.code[mid] == r.code[mid]);
    lemma_branch(w, q, s.start(), m, at, over, mid + 1, k.push(v), t);
    if (v is Nil) == nil_first {
        if nil_first {
            assert(q.code[at + 1] == r.code[at + 1]);
            assert(k.push(v).pop() =~= k);
            lemma_one_on(w, q, s.start(), m, at + 1, k.push(v), at + 2, k);
            assert forall|l: Mem| #[trigger] goes(w, q, s.first_at() + 1, k, s.first_end(true), l) implies goes(
                w,
                q,
                s.start(),
                m,
                s.end(),
                l,
            ) by {
                lemma_on(w, q, s.start(), m, at + 2, k, mid, l);
                lemma_one_on(w, q, s.start(), m, mid, l, s.end(), l);
            }
        } else {
            assert forall|l: Mem| #[trigger] goes(w, q, s.first_at(), k.push(v), s.first_end(false), l) implies goes(
                w,
                q,
                s.start(),
                m,
                s.end(),
                l,
            ) by {
                lemma_on(w, q, s.start(), m, at + 1, k.push(v), mid, l);
                lemma_one_on(w, q, s.start(), m, mid, l, s.end(), l);
            }
        }
    }
}

/// The test for nil stands in the code.
proof fn lemma_nil_front(s: Site, q: Out, r: Out, o1: Out)
    requires
        s.stands_in(q),
        s.out() == r,
        r.ics.len() <= u32::MAX,
        o1 == s.compared(),
        grew(s.o, s.received()),
        o1.code.len() < r.code.len(),
        forall|k: int| 0 <= k < o1.code.len() ==> #[trigger] r.code[k] == o1.code[k],
        prefix(o1.ics, r.ics),
    ensures
        o1.code.len() == s.received_at() + 3,
        s.received().ics.len() < u32::MAX,
        s.received_at() + 3 <= q.code.len(),
        forall|i: int|
            s.received_at() <= i < s.received_at() + 3 ==> #[trigger] q.code[i] == s.received().nil_test().code[i],
        prefix(s.received().nil_test().ics, q.ics),
{
    assert forall|i: int| s.received_at() <= i < s.received_at() + 3 implies #[trigger] q.code[i]
        == s.received().nil_test().code[i] by {
        assert(q.code[i] == s.out().code[i]);
        assert(r.code[i] == o1.code[i]);
    }
    assert forall|i: int| 0 <= i < o1.ics.len() implies o1.ics[i] == #[trigger] q.ics[i] by {
        assert(o1.ics[i] == r.ics[i]);
        assert(s.out().ics[i] == q.ics[i]);
    }
}

/// `ifNil:ifNotNil:` and `ifNotNil:ifNil:` run the block that fits the receiver's value and leave its
/// value. The block for nil runs without the receiver's value on the stack, the other one with it.
#[verifier::spinoff_prover]
pub proof fn law_nil_choice_value(s: Site, c: Control, w: World, q: Out, m: Mem, v: Val, k: Mem)
    requires
        c is IfNilIfNotNil || c is IfNotNilIfNil,
        s.dissolves_as(c),
        s.stands_in(q),
        knows_nil(w),
        goes(w, q, s.start(), m, s.received_at(), k.push(v)),
    ensures
        v is Nil && c is IfNilIfNotNil ==> forall|l: Mem|
            #[trigger] goes(w, q, s.first_at() + 1, k, s.first_end(true), l) ==> goes(w, q, s.start(), m, s.end(), l),
        !(v is Nil) && c is IfNilIfNotNil ==> forall|l: Mem|
            #[trigger] goes(w, q, s.first_end(true) + 1, k.push(v), s.end(), l) ==> goes(
                w,
                q,
                s.start(),
                m,
                s.end(),
                l,
            ),
        !(v is Nil) && c is IfNotNilIfNil ==> forall|l: Mem|
            #[trigger] goes(w, q, s.first_at(), k.push(v), s.first_end(false), l) ==> goes(
                w,
                q,
                s.start(),
                m,
                s.end(),
                l,
            ),
        v is Nil && c is IfNotNilIfNil ==> forall|l: Mem|
            #[trigger] goes(w, q, s.first_end(false) + 2, k, s.end(), l) ==> goes(w, q, s.start(), m, s.end(), l),
{
    let nil_first = c is IfNilIfNotNil;
    let over = !nil_first;
    let o1 = s.compared();
    let r = s.out();
    lemma_args(s, c);
    lemma_nil_code(s, c);
    lemma_nil_front(s, q, r, o1);
    lemma_nil_test(w, s, q, m, v, k);
    let at = o1.code.len() as int;
    let mid = s.first_end(nil_first);
    let t = if v is Nil {
        Val::True
    } else {
        Val::False
    };
    assert(q.code[at] == r.code[at]);
    assert(q.code[mid] == r.code[mid]);
    assert(k.push(v).pop() =~= k);
    lemma_branch(w, q, s.start(), m, at, over, mid + 1, k.push(v), t);
    if v is Nil && nil_first {
        assert(q.code[at + 1] == r.code[at + 1]);
        lemma_one_on(w, q, s.start(), m, at + 1, k.push(v), at + 2, k);
        assert forall|l: Mem| #[trigger] goes(w, q, s.first_at() + 1, k, s.first_end(true), l) implies goes(
            w,
            q,
            s.start(),
            m,
            s.end(),
            l,
        ) by {
            lemma_on(w, q, s.start(), m, at + 2, k, mid, l);
            lemma_one_on(w, q, s.start(), m, mid, l, s.end(), l);
        }
    } else if nil_first {
        assert forall|l: Mem| #[trigger] goes(w, q, s.first_end(true) + 1, k.push(v), s.end(), l) implies goes(
            w,
            q,
            s.start(),
            m,
            s.end(),
            l,
        ) by {
            lemma_on(w, q, s.start(), m, mid + 1, k.push(v), s.end(), l);
        }
    } else if v is Nil {
        assert(q.code[mid + 1] == r.code[mid + 1]);
        lemma_one_on(w, q, s.start(), m, mid + 1, k.push(v), mid + 2, k);
        assert forall|l: Mem| #[trigger] goes(w, q, s.first_end(false) + 2, k, s.end(), l) implies goes(
            w,
            q,
            s.start(),
            m,
            s.end(),
            l,
        ) by {
            lemma_on(w, q, s.start(), m, mid + 2, k, s.end(), l);
        }
    } else {
        assert forall|l: Mem| #[trigger] goes(w, q, s.first_at(), k.push(v), s.first_end(false), l) implies goes(
            w,
            q,
            s.start(),
            m,
            s.end(),
            l,
        ) by {
            lemma_on(w, q, s.start(), m, at + 1, k.push(v), mid, l);
            lemma_one_on(w, q, s.start(), m, mid, l, s.end(), l);
        }
    }
}

/// A dissolved block's variable is found among those in view.
proof fn lemma_bound_is_found(h: Seq<(Seq<char>, u8)>, names: Seq<Seq<char>>, next: usize, k: int, i: int)
    requires
        0 <= i < k <= names.len(),
    ensures
        hoisted(bound(h, names, next, k), names[i]) is Some,
    decreases k,
{
    let b = bound(h, names, next, k);
    assert(b.drop_last() =~= bound(h, names, next, k - 1));
    if i < k - 1 {
        lemma_bound_is_found(h, names, next, k - 1, i);
    }
}

/// A block for a value other than nil starts by taking that value from the stack: it drops it, or its
/// parameter takes it, in the context where a nested block captures it, else in its slot of the
/// frame.
pub proof fn law_arm_takes_value(s: Site, e: Expr, b: BlockNode, o: Out, w: World, q: Out, k: Mem, v: Val)
    requires
        e matches Expr::Block(x) && *x == b,
        formed(e),
        s.arm(e, o).err is None,
        s.arm(e, o).code.len() <= q.code.len(),
        forall|i: int| o.code.len() <= i < s.arm(e, o).code.len() ==> #[trigger] q.code[i] == s.arm(e, o).code[i],
    ensures
        b.params@.len() == 0 ==> step(w, q, o.code.len() as int, k.push(v)) == Some((o.code.len() + 1int, k)),
        b.params@.len() > 0 ==> match meaning(s.cx, inside(s.h, b, o), s.sid, b.params@[0]@, true, o.globals) {
            VarV::Local(slot) => step(w, q, o.code.len() as int, k.push(v)) == Some((o.code.len() + 1int, k.set(slot, v))),
            VarV::Captured(depth, slot) => step(w, q, o.code.len() as int, k.push(v)) == Some(
                (
                    o.code.len() + 1int,
                    Mem { rest: (w.store)(Instr::StoreCtxTempPop { depth, slot }, v, k.rest), ..k },
                ),
            ),
            _ => false,
        },
{
    lemma_arm_grew(s.cx, s.in_block, s.h, s.sid, e, o);
    let p = s.arm(e, o);
    let at = o.code.len() as int;
    assert(k.push(v).pop() =~= k);
    if b.params@.len() == 0 {
        let o1 = o.put(Instr::Pop);
        lemma_dissolved_grew(s.cx, s.in_block, s.h, s.sid, e, o1);
        assert(o1.code[at] == p.code[at]);
        assert(q.code[at] == p.code[at]);
    } else {
        let h2 = inside(s.h, b, o);
        let o1 = o.took_block(b).store(s.cx, h2, s.sid, b.params@[0]@, b.span);
        lemma_values_grew(s.cx, s.in_block, h2, s.sid, b.body@, o1);
        let names = block_names(b);
        assert(names[0] == b.params@[0]@);
        lemma_bound_is_found(s.h, names, o.next, names.len() as int, 0);
        match meaning(s.cx, h2, s.sid, b.params@[0]@, true, o.globals) {
            VarV::Local(_) | VarV::Captured(_, _) => {
                assert(o1.code[at] == p.code[at]);
                assert(q.code[at] == p.code[at]);
            },
            _ => {},
        }
    }
}

// ── Counted loops ───────────────────────────────────────────────────────

/// Comparing and adding numbers answers what they are for, and changes nothing.
pub open spec fn knows_numbers(w: World) -> bool {
    &&& forall|a: int, b: int, rest: int|
        #[trigger] answer(w, "<="@, Val::Small(a), Val::Small(b), rest) == Some(
            (
                if a <= b {
                    Val::True
                } else {
                    Val::False
                },
                rest,
            ),
        )
    &&& forall|a: int, b: int, rest: int|
        #[trigger] answer(w, "+"@, Val::Small(a), Val::Small(b), rest) == Some((Val::Small(a + b), rest))
}

impl<'a> Site<'a> {
    /// The code of a loop over a range up to the value of its limit.
    pub open spec fn limited(self) -> Out {
        let o1 = self.received().put(Instr::Dup);
        self.value(self.args()[0], o1.took().put(Instr::StoreTempPop(o1.next as u8)))
    }

    /// The slot of the counter.
    pub open spec fn counter(self, c: Control) -> u8 {
        if c is ToDo {
            self.received().next as u8
        } else {
            succ(self.received().next) as u8
        }
    }

    /// The slot of the limit.
    pub open spec fn limit(self, c: Control) -> u8 {
        if c is ToDo {
            self.limited().next as u8
        } else {
            self.received().next as u8
        }
    }

    /// The code of a counted loop up to its test.
    pub open spec fn counted(self, c: Control) -> Out {
        if c is ToDo {
            self.limited().took().put(Instr::StoreTempPop(self.limit(c)))
        } else {
            self.received().put(Instr::Dup).took().put(Instr::StoreTempPop(self.limit(c))).took().put(
                Instr::PushSmi(1),
            ).put(Instr::StoreTempPop(self.counter(c)))
        }
    }

    /// Where the test stands.
    pub open spec fn test_at(self, c: Control) -> int {
        self.counted(c).code.len() as int
    }

    /// The code of a counted loop with that of its body.
    pub open spec fn rounds(self, c: Control) -> Out {
        let o = self.counted(c).loop_test(self.counter(c), self.limit(c)).put(branch(false, 0));
        match self.args().last() {
            Expr::Block(b) => values(
                self.cx,
                self.in_block,
                if c is ToDo {
                    self.h.push((b.params@[0]@, self.counter(c)))
                } else {
                    self.h
                },
                self.sid,
                b.body@,
                o,
            ),
            _ => o,
        }
    }

    /// Where the body starts.
    pub open spec fn body_at(self, c: Control) -> int {
        self.test_at(c) + 4
    }

    /// Where it ends.
    pub open spec fn body_end(self, c: Control) -> int {
        self.rounds(c).code.len() as int
    }
}

/// The code of a counted loop.
#[verifier::spinoff_prover]
proof fn lemma_counted_code(s: Site, c: Control)
    requires
        c is TimesRepeat || c is ToDo,
        shaped(s, c),
    ensures
        ({
            let r = s.out();
            let t = s.test_at(c);
            let e = s.body_end(c);
            let one = s.counted(c).ics.len() as int;
            let two = s.rounds(c).ics.len() as int;
            &&& grew(s.o, s.received())
            &&& c is ToDo ==> grew(
                s.received().put(Instr::Dup).took().put(Instr::StoreTempPop(s.counter(c))),
                s.limited(),
            )
            &&& t + 4 <= e
            &&& s.end() == e + 6
            &&& forall|k: int| 0 <= k < t ==> #[trigger] r.code[k] == s.counted(c).code[k]
            &&& r.code[t] == Instr::PushTemp(s.counter(c))
            &&& r.code[t + 1] == Instr::PushTemp(s.limit(c))
            &&& r.code[t + 2] == Instr::Send { ic: one as u32, super_: false }
            &&& r.code[t + 3] == branch(false, s.end() as usize)
            &&& r.code[e] == Instr::Pop
            &&& r.code[e + 1] == Instr::PushTemp(s.counter(c))
            &&& r.code[e + 2] == Instr::PushSmi(1)
            &&& r.code[e + 3] == Instr::Send { ic: two as u32, super_: false }
            &&& r.code[e + 4] == Instr::StoreTempPop(s.counter(c))
            &&& r.code[e + 5] == Instr::JumpBack(t as usize)
            &&& 0 <= one < two < r.ics.len()
            &&& r.ics[one] == SiteV { selector: "<="@, argc: 1, super_: false }
            &&& r.ics[two] == SiteV { selector: "+"@, argc: 1, super_: false }
        }),
{
    let o1 = s.received().put(Instr::Dup);
    let i = s.counter(c);
    let limit = s.limit(c);
    let o2 = s.counted(c);
    let o3 = o2.loop_test(i, limit);
    let br = o3.put(branch(false, 0));
    let o4 = s.rounds(c);
    let o5 = o4.put(Instr::Pop).loop_step(i, o2.here());
    let r = o5.fix(o3.code.len() as int, branch(false, o5.here()));
    assert(s.out() == r);
    let blk = s.args().last();
    match blk {
        Expr::Block(b) => {
            let h2 = if c is ToDo {
                s.h.push((b.params@[0]@, i))
            } else {
                s.h
            };
            lemma_values_grew(s.cx, s.in_block, h2, s.sid, b.body@, br);
        },
        _ => {},
    }
    if c is ToDo {
        lemma_expr_grew(s.cx, s.in_block, s.h, s.sid, s.args()[0], o1.took().put(Instr::StoreTempPop(i)));
    }
    lemma_expr_grew(s.cx, s.in_block, s.h, s.sid, s.receiver(), s.o);
    assert(s.out() == r);
    let t = s.test_at(c);
    let e = s.body_end(c);
    assert(grew(br, o4));
    assert(br.code.len() == t + 4);
    assert forall|k: int| 0 <= k < t implies #[trigger] r.code[k] == o2.code[k] by {
        assert(br.code[k] == o4.code[k]);
    }
    assert(br.code[t] == o4.code[t]);
    assert(br.code[t + 1] == o4.code[t + 1]);
    assert(br.code[t + 2] == o4.code[t + 2]);
    assert(br.ics[o2.ics.len() as int] == o4.ics[o2.ics.len() as int]);
}

/// A counted loop keeps its receiver on the stack and counts up to its limit: `timesRepeat:` from one
/// to the receiver, `to:do:` from the receiver to its argument. Here is where it starts.
pub proof fn law_times_repeat_starts(s: Site, w: World, q: Out, m: Mem, v: Val, k: Mem)
    requires
        s.dissolves_as(Control::TimesRepeat),
        s.stands_in(q),
        goes(w, q, s.start(), m, s.received_at(), k.push(v)),
    ensures
        goes(
            w,
            q,
            s.start(),
            m,
            s.test_at(Control::TimesRepeat),
            k.push(v).set(s.limit(Control::TimesRepeat), v).set(s.counter(Control::TimesRepeat), Val::Small(1)),
        ),
{
    let c = Control::TimesRepeat;
    lemma_args(s, c);
    lemma_counted_code(s, c);
    let at = s.received_at();
    let o2 = s.counted(c);
    let r = s.out();
    assert(o2.code[at] == Instr::Dup);
    assert(o2.code[at + 1] == Instr::StoreTempPop(s.limit(c)));
    assert(o2.code[at + 2] == Instr::PushSmi(1));
    assert(o2.code[at + 3] == Instr::StoreTempPop(s.counter(c)));
    assert forall|i: int| at <= i < at + 4 implies #[trigger] q.code[i] == o2.code[i] by {
        assert(q.code[i] == r.code[i]);
    }
    let k0 = k.push(v);
    let k1 = k0.set(s.limit(c), v);
    let k2 = k1.set(s.counter(c), Val::Small(1));
    assert(q.code[at] == o2.code[at]);
    assert(q.code[at + 1] == o2.code[at + 1]);
    assert(q.code[at + 2] == o2.code[at + 2]);
    assert(q.code[at + 3] == o2.code[at + 3]);
    lemma_one_on(w, q, s.start(), m, at, k0, at + 1, k0.push(v));
    assert(k0.push(v).pop().set(s.limit(c), v) =~= k1);
    lemma_one_on(w, q, s.start(), m, at + 1, k0.push(v), at + 2, k1);
    lemma_one_on(w, q, s.start(), m, at + 2, k1, at + 3, k1.push(Val::Small(1)));
    assert(k1.push(Val::Small(1)).pop().set(s.counter(c), Val::Small(1)) =~= k2);
    lemma_one_on(w, q, s.start(), m, at + 3, k1.push(Val::Small(1)), at + 4, k2);
}

/// Where `to:do:` starts: the receiver is the counter's first value, and stays on the stack while the
/// limit is computed.
pub proof fn law_to_do_starts(s: Site, w: World, q: Out, m: Mem, v: Val, k: Mem, n: Val, l: Mem)
    requires
        s.dissolves_as(Control::ToDo),
        s.stands_in(q),
        goes(w, q, s.start(), m, s.received_at(), k.push(v)),
        goes(
            w,
            q,
            s.received_at() + 2,
            k.push(v).set(s.counter(Control::ToDo), v),
            s.limited().code.len() as int,
            l.push(n),
        ),
    ensures
        goes(w, q, s.start(), m, s.test_at(Control::ToDo), l.set(s.limit(Control::ToDo), n)),
{
    let c = Control::ToDo;
    lemma_args(s, c);
    lemma_counted_code(s, c);
    let at = s.received_at();
    let o2 = s.counted(c);
    let before = s.received().put(Instr::Dup).took().put(Instr::StoreTempPop(s.counter(c)));
    let far = s.limited().code.len() as int;
    let r = s.out();
    assert(before.code[at] == Instr::Dup);
    assert(before.code[at + 1] == Instr::StoreTempPop(s.counter(c)));
    assert(before.code[at] == s.limited().code[at]);
    assert(before.code[at + 1] == s.limited().code[at + 1]);
    assert(o2.code[at] == s.limited().code[at]);
    assert(o2.code[at + 1] == s.limited().code[at + 1]);
    assert(o2.code[far] == Instr::StoreTempPop(s.limit(c)));
    assert(q.code[at] == r.code[at]);
    assert(q.code[at + 1] == r.code[at + 1]);
    assert(q.code[far] == r.code[far]);
    let k0 = k.push(v);
    let k1 = k0.set(s.counter(c), v);
    lemma_one_on(w, q, s.start(), m, at, k0, at + 1, k0.push(v));
    assert(k0.push(v).pop().set(s.counter(c), v) =~= k1);
    lemma_one_on(w, q, s.start(), m, at + 1, k0.push(v), at + 2, k1);
    lemma_on(w, q, s.start(), m, at + 2, k1, far, l.push(n));
    assert(l.push(n).pop().set(s.limit(c), n) =~= l.set(s.limit(c), n));
    lemma_one_on(w, q, s.start(), m, far, l.push(n), far + 1, l.set(s.limit(c), n));
}

/// While the counter is not above the limit, a counted loop runs its body, drops the body's value,
/// counts on and comes back to the test. Then it ends and leaves its receiver, which it kept on the
/// stack.
#[verifier::spinoff_prover]
pub proof fn law_counted_loop_value(s: Site, c: Control, w: World, q: Out, k: Mem, a: int, n: int)
    requires
        c is TimesRepeat || c is ToDo,
        s.dissolves_as(c),
        s.stands_in(q),
        knows_numbers(w),
        k.temps.len() == 256,
        k.temps[s.counter(c) as int] == Val::Small(a),
        k.temps[s.limit(c) as int] == Val::Small(n),
    ensures
        a > n ==> goes(w, q, s.test_at(c), k, s.end(), k),
        a <= n ==> forall|l: Mem|
            #[trigger] goes(w, q, s.body_at(c), k, s.body_end(c), l) && l.stack.len() > 0 && l.temps[s.counter(
                c,
            ) as int] is Small ==> goes(
                w,
                q,
                s.test_at(c),
                k,
                s.test_at(c),
                l.pop().set(s.counter(c), Val::Small(l.temps[s.counter(c) as int]->Small_0 + 1)),
            ),
{
    lemma_args(s, c);
    lemma_counted_code(s, c);
    let r = s.out();
    let t = s.test_at(c);
    let e = s.body_end(c);
    let one = s.counted(c).ics.len() as int;
    let two = s.rounds(c).ics.len() as int;
    assert(q.code[t] == r.code[t]);
    assert(q.code[t + 1] == r.code[t + 1]);
    assert(q.code[t + 2] == r.code[t + 2]);
    assert(q.code[t + 3] == r.code[t + 3]);
    assert(r.ics[one] == q.ics[one]);
    assert(r.ics[two] == q.ics[two]);
    let k1 = k.push(Val::Small(a));
    let k2 = k1.push(Val::Small(n));
    let v = if a <= n {
        Val::True
    } else {
        Val::False
    };
    lemma_here(w, q, t, k);
    lemma_one_on(w, q, t, k, t, k, t + 1, k1);
    lemma_one_on(w, q, t, k, t + 1, k1, t + 2, k2);
    assert(answer(w, "<="@, Val::Small(a), Val::Small(n), k.rest) == Some((v, k.rest)));
    lemma_binary(w, q, t, k, t + 2, k, Val::Small(a), Val::Small(n), v, k.rest);
    assert(Mem { rest: k.rest, ..k.push(v) } =~= k.push(v));
    lemma_branch(w, q, t, k, t + 3, false, s.end(), k, v);
    assert(q.code[e] == r.code[e]);
    assert(q.code[e + 1] == r.code[e + 1]);
    assert(q.code[e + 2] == r.code[e + 2]);
    assert(q.code[e + 3] == r.code[e + 3]);
    assert(q.code[e + 4] == r.code[e + 4]);
    assert(q.code[e + 5] == r.code[e + 5]);
    assert(counts_on(q, e, s.counter(c), t));
    if a <= n {
        assert forall|l: Mem|
            #[trigger] goes(w, q, s.body_at(c), k, s.body_end(c), l) && l.stack.len() > 0 && l.temps[s.counter(
                c,
            ) as int] is Small implies goes(
            w,
            q,
            t,
            k,
            t,
            l.pop().set(s.counter(c), Val::Small(l.temps[s.counter(c) as int]->Small_0 + 1)),
        ) by {
            lemma_on(w, q, t, k, t + 4, k, e, l);
            lemma_counted_step(w, q, t, k, e, l, s.counter(c), l.temps[s.counter(c) as int]->Small_0);
        }
    }
}

/// The step of a counted loop, from instruction `e` on, and the way back to its test.
spec fn counts_on(q: Out, e: int, i: u8, t: int) -> bool {
    &&& 0 <= e
    &&& e + 6 <= q.code.len()
    &&& q.code[e] == Instr::Pop
    &&& q.code[e + 1] == Instr::PushTemp(i)
    &&& q.code[e + 2] == Instr::PushSmi(1)
    &&& q.code[e + 3] matches Instr::Send { ic, .. } && q.ics[ic as int] == (SiteV {
        selector: "+"@,
        argc: 1,
        super_: false,
    })
    &&& q.code[e + 4] == Instr::StoreTempPop(i)
    &&& q.code[e + 5] == Instr::JumpBack(t as usize)
    &&& 0 <= t <= usize::MAX
}

/// What the step of a counted loop does.
#[verifier::spinoff_prover]
proof fn lemma_counted_step(w: World, q: Out, t: int, k: Mem, e: int, l: Mem, i: u8, j: int)
    requires
        counts_on(q, e, i, t),
        knows_numbers(w),
        goes(w, q, t, k, e, l),
        l.stack.len() > 0,
        Val::Small(j) == l.temps[i as int],
    ensures
        goes(w, q, t, k, t, l.pop().set(i, Val::Small(j + 1))),
{
    let l0 = l.pop();
    let x = Val::Small(j);
    let y = Val::Small(1);
    let z = Val::Small(j + 1);
    lemma_one_on(w, q, t, k, e, l, e + 1, l0);
    lemma_one_on(w, q, t, k, e + 1, l0, e + 2, l0.push(x));
    lemma_one_on(w, q, t, k, e + 2, l0.push(x), e + 3, l0.push(x).push(y));
    assert(answer(w, "+"@, x, y, l0.rest) == Some((z, l0.rest)));
    lemma_binary(w, q, t, k, e + 3, l0, x, y, z, l0.rest);
    assert(Mem { rest: l0.rest, ..l0.push(z) } =~= l0.push(z));
    let l1 = l0.set(i, z);
    assert(l0.push(z).pop().set(i, z) =~= l1);
    lemma_one_on(w, q, t, k, e + 4, l0.push(z), e + 5, l1);
    lemma_one_on(w, q, t, k, e + 5, l1, t, l1);
}

} // verus!
