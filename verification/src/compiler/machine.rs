//! What emitted code computes: a model of the machine's integer instructions and its memory, what the
//! sequences for small-integer arithmetic do to registers, and which objects the guards let pass.
//!
//! Code is run forwards: a branch that is taken goes on at its label, where that is bound later in
//! the code, and leaves the code otherwise.
use vstd::prelude::*;
use vstd::arithmetic::power2::*;
use vstd::arithmetic::div_mod::*;
use vstd::arithmetic::mul::*;
#[allow(unused_imports)]
use crate::compiler::a64::{lemma_mnemonics, mnemonic_of, Addr, Cond, Mem, Mnemonic, Operand, Reg, Shift};
#[allow(unused_imports)]
use crate::compiler::assembler::{spec_imm, spec_mem, spec_x, spec_xr, Code, Insn, Label, LiteralId};
#[allow(unused_imports)]
use crate::compiler::emit::EntryGuard;
#[allow(unused_imports)]
use crate::compiler::emitter::{Plan, St};
#[allow(unused_imports)]
use crate::compiler::ir::{BlockId, SmiOp, VReg};
#[allow(unused_imports)]
use crate::compiler::lower::{cond_holds, Flags};
#[allow(unused_imports)]
use crate::compiler::regalloc::Assignment;

verus! {

// ── Words ───────────────────────────────────────────────────────────────

/// A word as a signed number.
pub open spec fn signed(u: u64) -> int {
    if u < 0x8000_0000_0000_0000 {
        u as int
    } else {
        u - 0x1_0000_0000_0000_0000
    }
}

/// The word of a number.
pub open spec fn word(v: int) -> u64 {
    (v % 0x1_0000_0000_0000_0000) as u64
}

/// Whether a number is one of the words, read as signed numbers.
pub open spec fn is_signed(v: int) -> bool {
    -0x8000_0000_0000_0000 <= v < 0x8000_0000_0000_0000
}

/// Whether a number is a small integer: its tagged form is a word.
pub open spec fn is_smi(v: int) -> bool {
    -0x2000_0000_0000_0000 <= v < 0x2000_0000_0000_0000
}

/// The word of a small integer.
pub open spec fn smi(v: int) -> u64 {
    word(4 * v)
}

/// The quotient rounded towards zero; zero where the divisor is.
pub open spec fn truncated(a: int, b: int) -> int {
    if b == 0 {
        0
    } else if a >= 0 {
        if b > 0 {
            a / b
        } else {
            -(a / (-b))
        }
    } else {
        if b > 0 {
            -((-a) / b)
        } else {
            (-a) / (-b)
        }
    }
}

// ── The machine ─────────────────────────────────────────────────────────

/// The general registers, the flags, and the word at each address.
#[verifier::ext_equal]
pub struct Cpu {
    pub x: Seq<u64>,
    pub f: Flags,
    pub mem: spec_fn(int) -> u64,
}

/// Where control is, at some place of the code: there, on its way to a label, gone to an address, or
/// at an instruction that the model leaves out.
pub enum Ctl {
    At(Cpu),
    To(Label, Cpu),
    Out(u64, Cpu),
    Stuck,
}

/// A shift to the right, of the sign too.
pub open spec fn shifted_right(u: u64, by: u64) -> u64 {
    word(signed(u) / (pow2((by % 64) as nat) as int))
}

/// A shift to the left.
pub open spec fn shifted_left(u: u64, by: u64) -> u64 {
    word(signed(u) * (pow2((by % 64) as nat) as int))
}

/// The flags of a difference.
pub open spec fn difference(a: u64, b: u64) -> Flags {
    let d = signed(a) - signed(b);
    Flags { n: signed(word(d)) < 0, z: a == b, c: a >= b, v: !is_signed(d) }
}

/// The flags of a sum.
pub open spec fn sum_flags(a: u64, b: u64) -> Flags {
    let d = signed(a) + signed(b);
    Flags { n: signed(word(d)) < 0, z: word(d) == 0, c: a + b >= 0x1_0000_0000_0000_0000, v: !is_signed(d) }
}

/// The flags of a bit test.
pub open spec fn tested(a: u64, b: u64) -> Flags {
    Flags { n: signed(a & b) < 0, z: a & b == 0, c: false, v: false }
}

/// A word with sixteen of its bits replaced.
pub open spec fn inserted(u: u64, g: u64, shift: u64) -> u64 {
    (u & !(0xFFFFu64 << shift)) | (g << shift)
}

/// The memory after a word is written. A word that overlaps it is left open.
pub open spec fn written(mem: spec_fn(int) -> u64, at: int, v: u64) -> spec_fn(int) -> u64 {
    |a: int|
        if a == at {
            v
        } else if at - 8 < a < at + 8 {
            arbitrary()
        } else {
            mem(a)
        }
}

/// The memory after a byte is written: the lowest of the word at its address. A word that starts
/// before it and reaches it is left open.
pub open spec fn byte_written(mem: spec_fn(int) -> u64, at: int, b: u64) -> spec_fn(int) -> u64 {
    |a: int|
        if a == at {
            (mem(a) - mem(a) % 256 + b) as u64
        } else if at - 8 < a < at {
            arbitrary()
        } else {
            mem(a)
        }
}

impl Cpu {
    /// An operand's value; register 31 reads as zero.
    pub open spec fn get(self, o: Operand) -> u64 {
        match o {
            Operand::Reg(r) => if r.num == 31 && !r.is_sp {
                0
            } else {
                self.x[r.num as int]
            },
            Operand::Imm(i) => word(i as int),
            Operand::RegShift(r, Shift::Asr, n) => shifted_right(self.x[r.num as int], n as u64),
            _ => 0,
        }
    }

    /// A register set.
    pub open spec fn set(self, o: Operand, v: u64) -> Cpu {
        match o {
            Operand::Reg(r) => if r.num == 31 && !r.is_sp {
                self
            } else {
                Cpu { x: self.x.update(r.num as int, v), ..self }
            },
            _ => self,
        }
    }

    /// An instruction on general registers; none for one that the model leaves out.
    pub open spec fn exec(self, name: Seq<char>, ops: Seq<Operand>) -> Option<Cpu> {
        let a = self.get(ops[1]);
        let b = self.get(ops[2]);
        match mnemonic_of(name) {
            Some(Mnemonic::Mov) => Some(self.set(ops[0], a)),
            Some(Mnemonic::Neg) => Some(self.set(ops[0], word(-signed(a)))),
            Some(Mnemonic::Add) => Some(self.set(ops[0], word(signed(a) + signed(b)))),
            Some(Mnemonic::Sub) => Some(self.set(ops[0], word(signed(a) - signed(b)))),
            Some(Mnemonic::Adds) => Some(Cpu { f: sum_flags(a, b), ..self.set(ops[0], word(signed(a) + signed(b))) }),
            Some(Mnemonic::Subs) => Some(Cpu { f: difference(a, b), ..self.set(ops[0], word(signed(a) - signed(b))) }),
            Some(Mnemonic::And) => Some(self.set(ops[0], a & b)),
            Some(Mnemonic::Orr) => Some(self.set(ops[0], a | b)),
            Some(Mnemonic::Eor) => Some(self.set(ops[0], a ^ b)),
            Some(Mnemonic::Asr) | Some(Mnemonic::Asrv) => Some(self.set(ops[0], shifted_right(a, b))),
            Some(Mnemonic::Lsr) => Some(self.set(ops[0], (a as int / (pow2((b % 64) as nat) as int)) as u64)),
            Some(Mnemonic::Lsl) | Some(Mnemonic::Lslv) => Some(self.set(ops[0], shifted_left(a, b))),
            Some(Mnemonic::Mul) => Some(self.set(ops[0], word(signed(a) * signed(b)))),
            Some(Mnemonic::Smulh) => Some(self.set(ops[0], word((signed(a) * signed(b)) / 0x1_0000_0000_0000_0000))),
            Some(Mnemonic::Sdiv) => Some(self.set(ops[0], word(truncated(signed(a), signed(b))))),
            Some(Mnemonic::Msub) => Some(
                self.set(ops[0], word(signed(self.get(ops[3])) - signed(a) * signed(b))),
            ),
            Some(Mnemonic::Csel) => match ops[3] {
                Operand::Sym(c) => Some(
                    self.set(
                        ops[0],
                        if cond_holds(c, self.f) {
                            a
                        } else {
                            b
                        },
                    ),
                ),
                _ => None,
            },
            Some(Mnemonic::Compare) => Some(Cpu { f: difference(self.get(ops[0]), a), ..self }),
            Some(Mnemonic::Tst) => Some(Cpu { f: tested(self.get(ops[0]), a), ..self }),
            Some(Mnemonic::Ldur) | Some(Mnemonic::Ldr) => match (ops[0], ops[1]) {
                (Operand::Reg(r), Operand::Mem(Mem { base, addr: Addr::Offset(off) })) => if r.class is X {
                    Some(self.set(ops[0], (self.mem)(self.x[base.num as int] + off)))
                } else if r.class is W {
                    Some(self.set(ops[0], ((self.mem)(self.x[base.num as int] + off) % 0x1_0000_0000) as u64))
                } else {
                    None
                },
                _ => None,
            },
            Some(Mnemonic::Ldurb) => match ops[1] {
                Operand::Mem(Mem { base, addr: Addr::Offset(off) }) => Some(
                    self.set(ops[0], ((self.mem)(self.x[base.num as int] + off) % 256) as u64),
                ),
                _ => None,
            },
            Some(Mnemonic::Str) | Some(Mnemonic::Stur) => match (ops[0], ops[1]) {
                (Operand::Reg(r), Operand::Mem(Mem { base, addr: Addr::Offset(off) })) => if r.class is X {
                    Some(Cpu { mem: written(self.mem, self.x[base.num as int] + off, self.get(ops[0])), ..self })
                } else {
                    None
                },
                _ => None,
            },
            Some(Mnemonic::Strb) | Some(Mnemonic::Sturb) => match ops[1] {
                Operand::Mem(Mem { base, addr: Addr::Offset(off) }) => Some(
                    Cpu {
                        mem: byte_written(self.mem, self.x[base.num as int] + off, (self.get(ops[0]) % 256) as u64),
                        ..self
                    },
                ),
                _ => None,
            },
            Some(Mnemonic::Movz) => Some(self.set(ops[0], a)),
            Some(Mnemonic::Movk) => match ops[1] {
                Operand::ImmShift(g, shift) => Some(
                    self.set(ops[0], inserted(self.get(ops[0]), g as u64, shift as u64)),
                ),
                _ => None,
            },
            _ => None,
        }
    }
}

/// Control after one instruction.
pub open spec fn after(c: Code, t: Ctl, i: Insn) -> Ctl {
    match t {
        Ctl::At(m) => match i {
            Insn::Op(name, ops) => if mnemonic_of(name) == Some(Mnemonic::Br) {
                Ctl::Out(m.get(ops[0]), m)
            } else {
                match m.exec(name, ops) {
                    Some(n) => Ctl::At(n),
                    None => Ctl::Stuck,
                }
            },
            Insn::LdrLit(r, id) => Ctl::At(m.set(Operand::Reg(r), c.pool[id.0 as int].0)),
            Insn::B(l) => Ctl::To(l, m),
            Insn::BCond(cond, l) => if cond_holds(cond, m.f) {
                Ctl::To(l, m)
            } else {
                Ctl::At(m)
            },
            Insn::Cbz(r, l) => if m.x[r.num as int] == 0 {
                Ctl::To(l, m)
            } else {
                Ctl::At(m)
            },
            _ => Ctl::Stuck,
        },
        _ => t,
    }
}

/// Control arrives at the label it goes to where that stands before instruction `k`.
pub open spec fn arrived(c: Code, k: int, t: Ctl) -> Ctl {
    match t {
        Ctl::To(l, m) => if l.0 < c.labels.len() && c.labels[l.0 as int] == Some(k as nat) {
            Ctl::At(m)
        } else {
            t
        },
        _ => t,
    }
}

/// Control before instruction `k`, from instruction `a` on.
pub open spec fn run(c: Code, a: int, m: Cpu, k: int) -> Ctl
    decreases k - a,
{
    if k <= a {
        Ctl::At(m)
    } else {
        arrived(c, k, after(c, run(c, a, m, k - 1), c.insns[k - 1]))
    }
}

/// What the code added since `s` does to the machine.
pub open spec fn added(s: St, t: St, m: Cpu) -> Ctl {
    run(t.code, s.code.insns.len() as int, m, t.code.insns.len() as int)
}

// ── Arithmetic ──────────────────────────────────────────────────────────

pub(crate) proof fn lemma_word(v: int)
    ensures
        is_signed(v) ==> signed(word(v)) == v,
        is_signed(signed(word(v))),
{
}

proof fn lemma_signed_word(u: u64)
    ensures
        is_signed(signed(u)),
        word(signed(u)) == u,
{
}

pub(crate) proof fn lemma_tag(v: int)
    requires
        is_smi(v),
    ensures
        signed(smi(v)) == 4 * v,
        smi(v) & 3 == 0,
        smi(v) == 0 <==> v == 0,
{
    let u = smi(v);
    assert(u % 4 == 0);
    assert(u % 4 == 0 ==> u & 3 == 0) by (bit_vector);
}

pub(crate) proof fn lemma_quarter(u: u64, by: u64)
    requires
        by == 2,
    ensures
        shifted_right(u, by) == word(signed(u) / 4),
        shifted_left(u, by) == word(signed(u) * 4),
{
    lemma2_to64();
}

// ── Sequences ───────────────────────────────────────────────────────────

/// The label of a block stands at or before the code's end, or is not bound yet.
pub open spec fn behind(s: St, l: Label) -> bool {
    &&& l.0 < s.code.labels.len()
    &&& s.code.labels[l.0 as int] matches Some(t) ==> t <= s.code.insns.len()
    &&& s.code.labels.len() < u32::MAX - 8
}

/// The machine before an operation on two small integers in registers.
pub open spec fn operands(m: Cpu, ra: u8, a: int, rb: u8, b: int) -> bool {
    &&& m.x.len() == 32
    &&& is_smi(a)
    &&& is_smi(b)
    &&& m.x[ra as int] == smi(a)
    &&& m.x[rb as int] == smi(b)
}

/// The run so far and one more instruction.
pub(crate) proof fn lemma_next(c: Code, a: int, m: Cpu, k: int)
    requires
        k >= a,
    ensures
        run(c, a, m, k + 1) == arrived(c, k + 1, after(c, run(c, a, m, k), c.insns[k])),
{
}

/// Tag tests of small integers change nothing but the flags.
pub(crate) proof fn lemma_tag_check(
    c: Code,
    n: int,
    m: Cpu,
    g: Cpu,
    s: St,
    p: Plan,
    a: VReg,
    ra: u8,
    va: int,
    b: VReg,
    rb: u8,
    vb: int,
    fail: BlockId,
) -> (f: Flags)
    requires
        0 <= n <= s.code.insns.len(),
        run(c, n, m, s.code.insns.len() as int) == Ctl::At(g),
        operands(g, ra, va, rb, vb),
        ra < 31,
        rb < 31,
        ({
            let u = s.tag_check(p, a, spec_xr(ra), b, spec_xr(rb), fail);
            &&& u.code.insns.len() <= c.insns.len()
            &&& forall|k: int|
                s.code.insns.len() <= k < u.code.insns.len() ==> #[trigger] c.insns[k] == u.code.insns[k]
        }),
    ensures
        ({
            let u = s.tag_check(p, a, spec_xr(ra), b, spec_xr(rb), fail);
            run(c, n, m, u.code.insns.len() as int) == Ctl::At(Cpu { f, ..g })
        }),
{
    lemma_mnemonics();
    lemma_tag(va);
    lemma_tag(vb);
    lemma_word(3);
    let k = s.code.insns.len() as int;
    let l = p.labels@[fail.0 as int];
    let s1 = if p.smi_ok(a, s.pos) {
        s
    } else {
        s.i2("tst"@, Operand::Reg(spec_xr(ra)), spec_imm(3)).bc(Cond::Ne, l)
    };
    let u = s.tag_check(p, a, spec_xr(ra), b, spec_xr(rb), fail);
    let g1 = if p.smi_ok(a, s.pos) {
        g
    } else {
        Cpu { f: tested(smi(va), 3), ..g }
    };
    let g2 = if p.smi_ok(b, s.pos) {
        g1
    } else {
        Cpu { f: tested(smi(vb), 3), ..g1 }
    };
    let k1 = s1.code.insns.len() as int;
    if !p.smi_ok(a, s.pos) {
        assert(k1 == k + 2);
        assert(u.code.insns[k] == Insn::Op("tst"@, seq![Operand::Reg(spec_xr(ra)), spec_imm(3)]));
        assert(u.code.insns[k + 1] == Insn::BCond(Cond::Ne, l));
        assert(c.insns[k] == u.code.insns[k]);
        assert(c.insns[k + 1] == u.code.insns[k + 1]);
        lemma_next(c, n, m, k);
        lemma_next(c, n, m, k + 1);
    }
    assert(run(c, n, m, k1) == Ctl::At(g1));
    if !p.smi_ok(b, s.pos) {
        assert(u.code.insns[k1] == Insn::Op("tst"@, seq![Operand::Reg(spec_xr(rb)), spec_imm(3)]));
        assert(u.code.insns[k1 + 1] == Insn::BCond(Cond::Ne, l));
        assert(c.insns[k1] == u.code.insns[k1]);
        assert(c.insns[k1 + 1] == u.code.insns[k1 + 1]);
        lemma_next(c, n, m, k1);
        lemma_next(c, n, m, k1 + 1);
    }
    g2.f
}

/// A run that is in the code at some place goes on as one from there.
pub(crate) proof fn lemma_resume(c: Code, a: int, m: Cpu, j: int, g: Cpu, k: int)
    requires
        a <= j <= k,
        run(c, a, m, j) == Ctl::At(g),
    ensures
        run(c, a, m, k) == run(c, j, g, k),
    decreases k - j,
{
    if j < k {
        lemma_resume(c, a, m, j, g, k - 1);
        lemma_next(c, a, m, k - 1);
        lemma_next(c, j, g, k - 1);
    }
}

/// Whether two machines agree but for the scratch registers, the flags, and one register more.
pub open spec fn same_but(a: Cpu, b: Cpu, d: u8) -> bool {
    &&& b.x.len() == a.x.len()
    &&& b.mem == a.mem
    &&& forall|r: int|
        0 <= r < a.x.len() && r != 16 && r != 17 && r != 19 && r != 20 && r != d ==> #[trigger] b.x[r] == a.x[r]
}

// ── Division ────────────────────────────────────────────────────────────

/// The quotient rounded towards minus infinity.
pub open spec fn floored(a: int, b: int) -> int {
    if b > 0 {
        a / b
    } else {
        (-a) / (-b)
    }
}

/// What that quotient leaves: it has the divisor's sign, or is zero.
pub open spec fn floored_rest(a: int, b: int) -> int {
    a - floored(a, b) * b
}

/// The truncated quotient, and how it is corrected to the floored one.
proof fn lemma_floored(a: int, b: int)
    requires
        b != 0,
        is_smi(a),
        is_smi(b),
    ensures
        ({
            let q = truncated(a, b);
            let r = a - q * b;
            &&& -0x2000_0000_0000_0000 <= q <= 0x2000_0000_0000_0000
            &&& is_smi(r)
            &&& q * b == a - r
            &&& if r != 0 && (r < 0) != (b < 0) {
                floored(a, b) == q - 1 && floored_rest(a, b) == r + b
            } else {
                floored(a, b) == q && floored_rest(a, b) == r
            }
        }),
        -0x2000_0000_0000_0000 <= floored(a, b) <= 0x2000_0000_0000_0000,
        is_smi(floored_rest(a, b)),
{
    let x = if a >= 0 {
        a
    } else {
        -a
    };
    let y = if b > 0 {
        b
    } else {
        -b
    };
    let d = x / y;
    let e = x % y;
    lemma_fundamental_div_mod(x, y);
    lemma_mod_bound(x, y);
    lemma_div_pos_is_pos(x, y);
    lemma_div_is_ordered_by_denominator(x, 1, y);
    lemma_div_basics(x);
    let q = truncated(a, b);
    let r = a - q * b;
    assert(y * d == d * y) by (nonlinear_arith);
    assert((-d) * y == -(d * y)) by (nonlinear_arith);
    assert(d * (-y) == -(d * y)) by (nonlinear_arith);
    assert((-d) * (-y) == d * y) by (nonlinear_arith);
    assert(r == if a >= 0 {
        e
    } else {
        -e
    });
    let fix = r != 0 && (r < 0) != (b < 0);
    let fq = if fix {
        q - 1
    } else {
        q
    };
    let fr = if fix {
        r + b
    } else {
        r
    };
    assert((q - 1) * b == q * b - b) by (nonlinear_arith);
    assert(a == fq * b + fr);
    if fix {
        assert(y >= 2);
        lemma_div_is_ordered_by_denominator(x, 2, y);
    }
    if b > 0 {
        assert(0 <= fr < b);
        lemma_fundamental_div_mod_converse(a, b, fq, fr);
    } else {
        assert(fq * (-b) == -(fq * b)) by (nonlinear_arith);
        assert(0 <= -fr < -b);
        lemma_fundamental_div_mod_converse(-a, -b, fq, -fr);
    }
}

/// Control that has left for a label keeps going there while the label is not passed.
pub(crate) proof fn lemma_gone(c: Code, a: int, m: Cpu, j: int, k: int, l: Label, n: Cpu)
    requires
        0 <= a <= j <= k,
        run(c, a, m, j) == Ctl::To(l, n),
        l.0 < c.labels.len() ==> (c.labels[l.0 as int] matches Some(t) ==> t <= j || t > k),
    ensures
        run(c, a, m, k) == Ctl::To(l, n),
    decreases k - j,
{
    if j < k {
        lemma_next(c, a, m, j);
        lemma_gone(c, a, m, j + 1, k, l, n);
    }
}

proof fn lemma_signs(u: u64, w: u64)
    ensures
        signed(u ^ w) >= 0 <==> (signed(u) < 0) == (signed(w) < 0),
{
    assert(((u ^ w) < 0x8000_0000_0000_0000) == ((u < 0x8000_0000_0000_0000) == (w < 0x8000_0000_0000_0000)))
        by (bit_vector);
}

/// The sequence of a division, from instruction `k` on, behind the tag tests from `n` on.
pub open spec fn is_division(c: Code, n: int, k: int, op: SmiOp, rd: u8, ra: u8, rb: u8, l: Label, done: Label) -> bool {
    &&& c.insns[k] == Insn::Cbz(spec_xr(rb), l)
    &&& c.insns[k + 1] == Insn::Op("asr"@, seq![spec_x(19), spec_x(ra), spec_imm(2)])
    &&& c.insns[k + 2] == Insn::Op("asr"@, seq![spec_x(20), spec_x(rb), spec_imm(2)])
    &&& c.insns[k + 3] == Insn::Op("sdiv"@, seq![spec_x(16), spec_x(19), spec_x(20)])
    &&& c.insns[k + 4] == Insn::Op("msub"@, seq![spec_x(17), spec_x(16), spec_x(20), spec_x(19)])
    &&& c.insns[k + 5] == Insn::Cbz(spec_xr(17), done)
    &&& c.insns[k + 6] == Insn::Op("eor"@, seq![spec_x(19), spec_x(17), spec_x(20)])
    &&& c.insns[k + 7] == Insn::Op("cmp"@, seq![spec_x(19), spec_imm(0)])
    &&& c.insns[k + 8] == Insn::BCond(Cond::Ge, done)
    &&& c.insns[k + 9] == Insn::Op("sub"@, seq![spec_x(16), spec_x(16), spec_imm(1)])
    &&& c.insns[k + 10] == Insn::Op("add"@, seq![spec_x(17), spec_x(17), spec_x(20)])
    &&& op is Div ==> {
        &&& c.insns[k + 11] == Insn::Op("lsl"@, seq![spec_x(19), spec_x(16), spec_imm(2)])
        &&& c.insns[k + 12] == Insn::Op("cmp"@, seq![spec_x(16), Operand::RegShift(spec_xr(19), Shift::Asr, 2)])
        &&& c.insns[k + 13] == Insn::BCond(Cond::Ne, l)
        &&& c.insns[k + 14] == Insn::Op("mov"@, seq![spec_x(rd), spec_x(19)])
    }
    &&& !(op is Div) ==> {
        &&& c.insns[k + 11] == Insn::Op("lsl"@, seq![spec_x(rd), spec_x(17), spec_imm(2)])
    }
    &&& l.0 < c.labels.len()
    &&& c.labels[l.0 as int] matches Some(t) ==> t <= n
    &&& done.0 < c.labels.len()
    &&& c.labels[done.0 as int] == Some((k + 11) as nat)
}

/// The instructions of a division.
pub open spec fn division_length(op: SmiOp) -> int {
    if op is Div {
        15
    } else {
        12
    }
}

#[verifier::spinoff_prover]
pub(crate) proof fn lemma_division_run(
    c: Code,
    n: int,
    k: int,
    op: SmiOp,
    rd: u8,
    ra: u8,
    rb: u8,
    l: Label,
    done: Label,
    m: Cpu,
    m0: Cpu,
    va: int,
    vb: int,
)
    requires
        0 <= n <= k,
        rd < 31,
        ra < 31,
        rb < 31,
        rb != 19,
        op is Div || op is Mod,
        is_division(c, n, k, op, rd, ra, rb, l, done),
        run(c, n, m, k) == Ctl::At(m0),
        operands(m0, ra, va, rb, vb),
    ensures
        ({
            let v = if op is Div {
                floored(va, vb)
            } else {
                floored_rest(va, vb)
            };
            match run(c, n, m, k + division_length(op)) {
                Ctl::At(e) => vb != 0 && is_smi(v) && e.x[rd as int] == smi(v) && same_but(m0, e, rd),
                Ctl::To(t, e) => (vb == 0 || !is_smi(v)) && t == l && same_but(m0, e, 16),
                _ => false,
            }
        }),
{
    lemma_mnemonics();
    lemma_tag(va);
    lemma_tag(vb);
    let end = k + division_length(op);
    lemma_next(c, n, m, k);
    if vb == 0 {
        assert(run(c, n, m, k + 1) == Ctl::To(l, m0));
        lemma_gone(c, n, m, k + 1, end, l, m0);
    } else {
        lemma_floored(va, vb);
        let q = truncated(va, vb);
        let r = va - q * vb;
        lemma_quarter(smi(va), 2);
        lemma_quarter(smi(vb), 2);
        lemma_word(va);
        lemma_word(vb);
        lemma_word(q);
        lemma_word(r);
        assert(run(c, n, m, k + 1) == Ctl::At(m0));
        let m1 = Cpu { x: m0.x.update(19, word(va)), ..m0 };
        lemma_next(c, n, m, k + 1);
        assert(run(c, n, m, k + 2) == Ctl::At(m1));
        let m2 = Cpu { x: m1.x.update(20, word(vb)), ..m1 };
        lemma_next(c, n, m, k + 2);
        assert(run(c, n, m, k + 3) == Ctl::At(m2));
        let m3 = Cpu { x: m2.x.update(16, word(q)), ..m2 };
        lemma_next(c, n, m, k + 3);
        assert(run(c, n, m, k + 4) == Ctl::At(m3));
        let m4 = Cpu { x: m3.x.update(17, word(r)), ..m3 };
        lemma_next(c, n, m, k + 4);
        assert(run(c, n, m, k + 5) == Ctl::At(m4));
        lemma_next(c, n, m, k + 5);
        let fq = floored(va, vb);
        let fr = floored_rest(va, vb);
        if r == 0 {
            assert(run(c, n, m, k + 6) == Ctl::To(done, m4));
            lemma_gone(c, n, m, k + 6, k + 10, done, m4);
            lemma_next(c, n, m, k + 10);
            assert(run(c, n, m, k + 11) == Ctl::At(m4));
            lemma_division_end(c, n, m, k, m4, op, rd, fq, fr, l);
        } else {
            assert(run(c, n, m, k + 6) == Ctl::At(m4));
            lemma_signs(word(r), word(vb));
            let z = word(r) ^ word(vb);
            let m5 = Cpu { x: m4.x.update(19, z), ..m4 };
            lemma_next(c, n, m, k + 6);
            assert(run(c, n, m, k + 7) == Ctl::At(m5));
            let m6 = Cpu { f: difference(z, 0), ..m5 };
            lemma_next(c, n, m, k + 7);
            assert(word(0) == 0);
            assert(run(c, n, m, k + 8) == Ctl::At(m6));
            lemma_signed_word(z);
            lemma_next(c, n, m, k + 8);
            if (r < 0) == (vb < 0) {
                assert(run(c, n, m, k + 9) == Ctl::To(done, m6));
                lemma_gone(c, n, m, k + 9, k + 10, done, m6);
                lemma_next(c, n, m, k + 10);
                assert(run(c, n, m, k + 11) == Ctl::At(m6));
                lemma_division_end(c, n, m, k, m6, op, rd, fq, fr, l);
            } else {
                assert(run(c, n, m, k + 9) == Ctl::At(m6));
                lemma_word(1);
                lemma_word(q - 1);
                let m7 = Cpu { x: m6.x.update(16, word(q - 1)), ..m6 };
                lemma_next(c, n, m, k + 9);
                assert(run(c, n, m, k + 10) == Ctl::At(m7));
                let m8 = Cpu { x: m7.x.update(17, word(r + vb)), ..m7 };
                lemma_next(c, n, m, k + 10);
                assert(run(c, n, m, k + 11) == Ctl::At(m8));
                lemma_division_end(c, n, m, k, m8, op, rd, fq, fr, l);
            }
        }
    }
}

/// The end of a division: the result tagged, the quotient checked.
proof fn lemma_division_end(c: Code, n: int, m: Cpu, k: int, g: Cpu, op: SmiOp, rd: u8, q: int, r: int, l: Label)
    requires
        n <= k,
        run(c, n, m, k + 11) == Ctl::At(g),
        g.x.len() == 32,
        rd < 31,
        g.x[16] == word(q),
        g.x[17] == word(r),
        -0x2000_0000_0000_0000 <= q <= 0x2000_0000_0000_0000,
        is_smi(r),
        l.0 < c.labels.len(),
        c.labels[l.0 as int] matches Some(t) ==> t <= n,
        op is Div ==> {
            &&& c.insns[k + 11] == Insn::Op("lsl"@, seq![spec_x(19), spec_x(16), spec_imm(2)])
            &&& c.insns[k + 12] == Insn::Op(
                "cmp"@,
                seq![spec_x(16), Operand::RegShift(spec_xr(19), Shift::Asr, 2)],
            )
            &&& c.insns[k + 13] == Insn::BCond(Cond::Ne, l)
            &&& c.insns[k + 14] == Insn::Op("mov"@, seq![spec_x(rd), spec_x(19)])
        },
        !(op is Div) ==> {
            &&& c.insns[k + 11] == Insn::Op("lsl"@, seq![spec_x(rd), spec_x(17), spec_imm(2)])
        },
    ensures
        match run(c, n, m, k + division_length(op)) {
            Ctl::At(e) => e.x[rd as int] == if op is Div {
                smi(q)
            } else {
                smi(r)
            } && (op is Div ==> is_smi(q)) && same_but(g, e, rd),
            Ctl::To(t, e) => op is Div && !is_smi(q) && t == l && same_but(g, e, 16),
            _ => false,
        },
{
    lemma_mnemonics();
    lemma_word(q);
    lemma_word(r);
    lemma_word(2);
    lemma_word(4 * q);
    lemma_quarter(word(q), 2);
    lemma_quarter(word(r), 2);
    lemma_next(c, n, m, k + 11);
    if op is Div {
        let g1 = Cpu { x: g.x.update(19, word(4 * q)), ..g };
        assert(run(c, n, m, k + 12) == Ctl::At(g1));
        lemma_quarter(word(4 * q), 2);
        let back = word(signed(word(4 * q)) / 4);
        let g2 = Cpu { f: difference(word(q), back), ..g1 };
        lemma_next(c, n, m, k + 12);
        assert(run(c, n, m, k + 13) == Ctl::At(g2));
        lemma_next(c, n, m, k + 13);
        if is_smi(q) {
            assert(back == word(q));
            assert(run(c, n, m, k + 14) == Ctl::At(g2));
            lemma_next(c, n, m, k + 14);
        } else {
            assert(q == 0x2000_0000_0000_0000);
            assert(back != word(q));
            assert(run(c, n, m, k + 14) == Ctl::To(l, g2));
            lemma_next(c, n, m, k + 14);
        }
    }
}

// ── Multiplication ──────────────────────────────────────────────────────

/// The high word is the low word's sign exactly where the product is one word.
pub(crate) proof fn lemma_product(v: int)
    requires
        -0x4000_0000_0000_0000 * 0x1_0000_0000_0000_0000 <= v <= 0x4000_0000_0000_0000 * 0x1_0000_0000_0000_0000,
    ensures
        word(v / 0x1_0000_0000_0000_0000) == shifted_right(word(v), 63) <==> is_signed(v),
{
    lemma2_to64();
    lemma2_to64_rest();
    let h = v / 0x1_0000_0000_0000_0000;
    let low = v % 0x1_0000_0000_0000_0000;
    assert(v == h * 0x1_0000_0000_0000_0000 + low);
    assert(-0x4000_0000_0000_0000 <= h <= 0x4000_0000_0000_0000);
    let sign = if low < 0x8000_0000_0000_0000 {
        0int
    } else {
        -1
    };
    assert(signed(word(v)) / 0x8000_0000_0000_0000 == sign);
    assert(shifted_right(word(v), 63) == word(sign));
    assert(word(h) == word(sign) <==> h == sign);
}

// ── Shifts ──────────────────────────────────────────────────────────────

/// A shift to the left and back yields what was shifted exactly where nothing was lost.
proof fn lemma_shift_back(x: int, by: nat)
    requires
        is_signed(x),
        by < 64,
    ensures
        word(signed(word(x * pow2(by))) / (pow2(by) as int)) == word(x) <==> is_signed(x * pow2(by)),
{
    let f = pow2(by) as int;
    lemma_pow2_pos(by);
    lemma_pow2_adds(by, (64 - by) as nat);
    lemma2_to64();
    let g = pow2((64 - by) as nat) as int;
    lemma_pow2_pos((64 - by) as nat);
    let y = x * f;
    let w = signed(word(y));
    lemma_word(y);
    if is_signed(y) {
        lemma_div_multiples_vanish(x, f);
        assert(y == f * x) by (nonlinear_arith)
            requires
                y == x * f,
        ;
    } else {
        let j = (w - y) / 0x1_0000_0000_0000_0000;
        assert((w - y) % 0x1_0000_0000_0000_0000 == 0);
        assert(w == y + j * 0x1_0000_0000_0000_0000);
        assert(j != 0);
        let z = x + j * g;
        assert(w == z * f) by (nonlinear_arith)
            requires
                w == y + j * 0x1_0000_0000_0000_0000,
                y == x * f,
                f * g == 0x1_0000_0000_0000_0000,
                z == x + j * g,
        ;
        lemma_div_multiples_vanish(z, f);
        assert(w == f * z) by (nonlinear_arith)
            requires
                w == z * f,
        ;
        assert(w / f == z);
        assert(z != x) by (nonlinear_arith)
            requires
                z == x + j * g,
                j != 0,
                g > 0,
        ;
        assert(is_signed(z)) by {
            lemma_div_is_signed(w, f, z);
        }
        lemma_word(z);
        lemma_word(x);
    }
}

proof fn lemma_div_is_signed(w: int, f: int, z: int)
    requires
        is_signed(w),
        f >= 1,
        w == z * f,
    ensures
        is_signed(z),
{
    assert(z >= 0 ==> z * f >= z) by (nonlinear_arith)
        requires
            f >= 1,
    ;
    assert(z < 0 ==> z * f <= z) by (nonlinear_arith)
        requires
            f >= 1,
    ;
}

/// Clearing the tag bits of a word.
proof fn lemma_clear_tag(x: int)
    ensures
        word(x) & 0xFFFF_FFFF_FFFF_FFFC == word(4 * (x / 4)),
{
    let u = word(x);
    assert(u & 0xFFFF_FFFF_FFFF_FFFC == u - u % 4) by (bit_vector);
    let h = x / 0x1_0000_0000_0000_0000;
    let b = 4 * (u as int / 4);
    assert(x == 0x1_0000_0000_0000_0000 * h + u);
    assert(x / 4 == 0x4000_0000_0000_0000 * h + u as int / 4);
    lemma_mod_multiples_vanish(h, b, 0x1_0000_0000_0000_0000);
    lemma_small_mod(b as nat, 0x1_0000_0000_0000_0000);
}

/// The sequence of a shift, from instruction `n` on.
pub open spec fn is_shift(c: Code, n: int, rd: u8, ra: u8, rc: u8, l: Label, right: Label, done: Label) -> bool {
    &&& c.insns[n] == Insn::Op("tst"@, seq![spec_x(ra), spec_imm(3)])
    &&& c.insns[n + 1] == Insn::BCond(Cond::Ne, l)
    &&& c.insns[n + 2] == Insn::Op("tst"@, seq![spec_x(rc), spec_imm(3)])
    &&& c.insns[n + 3] == Insn::BCond(Cond::Ne, l)
    &&& c.insns[n + 4] == Insn::Op("add"@, seq![spec_x(19), spec_x(rc), spec_imm(244)])
    &&& c.insns[n + 5] == Insn::Op("cmp"@, seq![spec_x(19), spec_imm(488)])
    &&& c.insns[n + 6] == Insn::BCond(Cond::Hi, l)
    &&& c.insns[n + 7] == Insn::Op("asr"@, seq![spec_x(19), spec_x(rc), spec_imm(2)])
    &&& c.insns[n + 8] == Insn::Op("cmp"@, seq![spec_x(19), spec_imm(0)])
    &&& c.insns[n + 9] == Insn::BCond(Cond::Lt, right)
    &&& c.insns[n + 10] == Insn::Op("lslv"@, seq![spec_x(20), spec_x(ra), spec_x(19)])
    &&& c.insns[n + 11] == Insn::Op("asrv"@, seq![spec_x(19), spec_x(20), spec_x(19)])
    &&& c.insns[n + 12] == Insn::Op("cmp"@, seq![spec_x(19), spec_x(ra)])
    &&& c.insns[n + 13] == Insn::BCond(Cond::Ne, l)
    &&& c.insns[n + 14] == Insn::Op("mov"@, seq![spec_x(rd), spec_x(20)])
    &&& c.insns[n + 15] == Insn::B(done)
    &&& c.insns[n + 16] == Insn::Op("neg"@, seq![spec_x(19), spec_x(19)])
    &&& c.insns[n + 17] == Insn::Op("asrv"@, seq![spec_x(20), spec_x(ra), spec_x(19)])
    &&& c.insns[n + 18] == Insn::Op("and"@, seq![spec_x(rd), spec_x(20), spec_imm((-4) as i64)])
    &&& l.0 < c.labels.len()
    &&& c.labels[l.0 as int] matches Some(t) ==> t <= n
    &&& right.0 < c.labels.len()
    &&& c.labels[right.0 as int] == Some((n + 16) as nat)
    &&& done.0 < c.labels.len()
    &&& c.labels[done.0 as int] == Some((n + 19) as nat)
}

/// The one comparison that finds the counts from -61 to 61.
proof fn lemma_window(v: int)
    requires
        is_smi(v),
    ensures
        word(4 * v + 244) > 488 <==> !(-61 <= v <= 61),
{
}

#[verifier::spinoff_prover]
#[verifier::rlimit(30)]
pub(crate) proof fn lemma_shift_run(
    c: Code,
    n: int,
    rd: u8,
    ra: u8,
    rc: u8,
    l: Label,
    right: Label,
    done: Label,
    m: Cpu,
    va: int,
    vc: int,
)
    requires
        0 <= n,
        rd < 31,
        ra < 31,
        ra != 19,
        ra != 20,
        rc < 31,
        rc != 19,
        is_shift(c, n, rd, ra, rc, l, right, done),
        operands(m, ra, va, rc, vc),
    ensures
        ({
            let v = if vc >= 0 {
                va * pow2(vc as nat)
            } else {
                va / (pow2((-vc) as nat) as int)
            };
            match run(c, n, m, n + 19) {
                Ctl::At(e) => -61 <= vc <= 61 && is_smi(v) && e.x[rd as int] == smi(v) && same_but(m, e, rd),
                Ctl::To(t, e) => !(-61 <= vc <= 61 && is_smi(v)) && t == l && same_but(m, e, 16),
                _ => false,
            }
        }),
{
    lemma_mnemonics();
    lemma_tag(va);
    lemma_tag(vc);
    let m1 = Cpu { f: tested(smi(va), 3), ..m };
    lemma_next(c, n, m, n);
    lemma_next(c, n, m, n + 1);
    assert(run(c, n, m, n + 2) == Ctl::At(m1));
    let m2 = Cpu { f: tested(smi(vc), 3), ..m };
    lemma_next(c, n, m, n + 2);
    lemma_next(c, n, m, n + 3);
    assert(run(c, n, m, n + 4) == Ctl::At(m2));
    let w = word(4 * vc + 244);
    lemma_word(244);
    lemma_word(488);
    let m3 = Cpu { x: m2.x.update(19, w), ..m2 };
    lemma_next(c, n, m, n + 4);
    assert(run(c, n, m, n + 5) == Ctl::At(m3));
    let m4 = Cpu { f: difference(w, 488), ..m3 };
    lemma_next(c, n, m, n + 5);
    assert(run(c, n, m, n + 6) == Ctl::At(m4));
    lemma_next(c, n, m, n + 6);
    lemma_window(vc);
    if !(-61 <= vc <= 61) {
        assert(run(c, n, m, n + 7) == Ctl::To(l, m4));
        lemma_gone(c, n, m, n + 7, n + 19, l, m4);
    } else {
        assert(run(c, n, m, n + 7) == Ctl::At(m4));
        lemma_quarter(smi(vc), 2);
        lemma_word(2);
        lemma_word(vc);
        lemma_word(0);
        let m5 = Cpu { x: m4.x.update(19, word(vc)), ..m4 };
        lemma_next(c, n, m, n + 7);
        assert(run(c, n, m, n + 8) == Ctl::At(m5));
        let m6 = Cpu { f: difference(word(vc), 0), ..m5 };
        lemma_next(c, n, m, n + 8);
        assert(run(c, n, m, n + 9) == Ctl::At(m6));
        lemma_next(c, n, m, n + 9);
        if vc >= 0 {
            assert(run(c, n, m, n + 10) == Ctl::At(m6));
            lemma_shift_left(c, n, m, m6, rd, ra, l, done, va, vc);
        } else {
            assert(run(c, n, m, n + 10) == Ctl::To(right, m6));
            lemma_gone(c, n, m, n + 10, n + 15, right, m6);
            lemma_next(c, n, m, n + 15);
            assert(run(c, n, m, n + 16) == Ctl::At(m6));
            lemma_shift_right(c, n, m, m6, rd, ra, va, vc);
        }
    }
}

/// The part that shifts to the left.
#[verifier::spinoff_prover]
proof fn lemma_shift_left(c: Code, n: int, m: Cpu, m6: Cpu, rd: u8, ra: u8, l: Label, done: Label, va: int, vc: int)
    requires
        0 <= n,
        run(c, n, m, n + 10) == Ctl::At(m6),
        m6.x.len() == 32,
        rd < 31,
        ra < 31,
        ra != 19,
        ra != 20,
        is_smi(va),
        0 <= vc <= 61,
        m6.x[ra as int] == smi(va),
        m6.x[19] == word(vc),
        c.insns[n + 10] == Insn::Op("lslv"@, seq![spec_x(20), spec_x(ra), spec_x(19)]),
        c.insns[n + 11] == Insn::Op("asrv"@, seq![spec_x(19), spec_x(20), spec_x(19)]),
        c.insns[n + 12] == Insn::Op("cmp"@, seq![spec_x(19), spec_x(ra)]),
        c.insns[n + 13] == Insn::BCond(Cond::Ne, l),
        c.insns[n + 14] == Insn::Op("mov"@, seq![spec_x(rd), spec_x(20)]),
        c.insns[n + 15] == Insn::B(done),
        l.0 < c.labels.len(),
        c.labels[l.0 as int] matches Some(t) ==> t <= n,
        done.0 < c.labels.len(),
        c.labels[done.0 as int] == Some((n + 19) as nat),
    ensures
        match run(c, n, m, n + 19) {
            Ctl::At(e) => is_smi(va * pow2(vc as nat)) && e.x[rd as int] == smi(va * pow2(vc as nat)) && same_but(
                m6,
                e,
                rd,
            ),
            Ctl::To(t, e) => !is_smi(va * pow2(vc as nat)) && t == l && same_but(m6, e, 16),
            _ => false,
        },
{
    lemma_mnemonics();
    lemma_tag(va);
    lemma_word(vc);
    let e = vc as nat;
    let x = 4 * va;
    let f = pow2(e) as int;
    lemma_shift_back(x, e);
    let left = word(x * f);
    let back = word(signed(left) / f);
    assert(word(vc) == vc);
    let m7 = Cpu { x: m6.x.update(20, left), ..m6 };
    lemma_next(c, n, m, n + 10);
    assert(run(c, n, m, n + 11) == Ctl::At(m7));
    let m8 = Cpu { x: m7.x.update(19, back), ..m7 };
    lemma_next(c, n, m, n + 11);
    assert(run(c, n, m, n + 12) == Ctl::At(m8));
    let m9 = Cpu { f: difference(back, smi(va)), ..m8 };
    lemma_next(c, n, m, n + 12);
    assert(run(c, n, m, n + 13) == Ctl::At(m9));
    lemma_next(c, n, m, n + 13);
    let v = va * pow2(e);
    assert(x * f == 4 * v) by (nonlinear_arith)
        requires
            x == 4 * va,
            v == va * f,
    ;
    if is_smi(v) {
        assert(run(c, n, m, n + 14) == Ctl::At(m9));
        let m10 = Cpu { x: m9.x.update(rd as int, left), ..m9 };
        lemma_next(c, n, m, n + 14);
        assert(run(c, n, m, n + 15) == Ctl::At(m10));
        lemma_next(c, n, m, n + 15);
        assert(run(c, n, m, n + 16) == Ctl::To(done, m10));
        lemma_gone(c, n, m, n + 16, n + 18, done, m10);
        lemma_next(c, n, m, n + 18);
    } else {
        assert(run(c, n, m, n + 14) == Ctl::To(l, m9));
        lemma_gone(c, n, m, n + 14, n + 19, l, m9);
    }
}

/// The part that shifts to the right.
#[verifier::spinoff_prover]
proof fn lemma_shift_right(c: Code, n: int, m: Cpu, m6: Cpu, rd: u8, ra: u8, va: int, vc: int)
    requires
        0 <= n,
        run(c, n, m, n + 16) == Ctl::At(m6),
        m6.x.len() == 32,
        rd < 31,
        ra < 31,
        ra != 19,
        ra != 20,
        is_smi(va),
        -61 <= vc < 0,
        m6.x[ra as int] == smi(va),
        m6.x[19] == word(vc),
        c.insns[n + 16] == Insn::Op("neg"@, seq![spec_x(19), spec_x(19)]),
        c.insns[n + 17] == Insn::Op("asrv"@, seq![spec_x(20), spec_x(ra), spec_x(19)]),
        c.insns[n + 18] == Insn::Op("and"@, seq![spec_x(rd), spec_x(20), spec_imm((-4) as i64)]),
    ensures
        match run(c, n, m, n + 19) {
            Ctl::At(e) => is_smi(va / (pow2((-vc) as nat) as int)) && e.x[rd as int] == smi(
                va / (pow2((-vc) as nat) as int),
            ) && same_but(m6, e, rd),
            _ => false,
        },
{
    lemma_mnemonics();
    lemma_tag(va);
    lemma_word(vc);
    let e = (-vc) as nat;
    let f = pow2(e) as int;
    lemma_pow2_pos(e);
    lemma_word(-vc);
    assert(word(-vc) == -vc);
    let m7 = Cpu { x: m6.x.update(19, word(-vc)), ..m6 };
    lemma_next(c, n, m, n + 16);
    assert(run(c, n, m, n + 17) == Ctl::At(m7));
    let q = (4 * va) / f;
    let m8 = Cpu { x: m7.x.update(20, word(q)), ..m7 };
    lemma_next(c, n, m, n + 17);
    assert(run(c, n, m, n + 18) == Ctl::At(m8));
    lemma_next(c, n, m, n + 18);
    lemma_clear_tag(q);
    lemma_quarter_of_quotient(va, f);
    lemma_small_quotient(va, f);
    assert(word(-4) == 0xFFFF_FFFF_FFFF_FFFC);
}

proof fn lemma_quarter_of_quotient(v: int, f: int)
    requires
        f >= 1,
    ensures
        ((4 * v) / f) / 4 == v / f,
{
    let g = v / f;
    let h = v % f;
    lemma_fundamental_div_mod(v, f);
    lemma_mod_bound(v, f);
    let w = (4 * h) / f;
    let r = (4 * h) % f;
    lemma_fundamental_div_mod(4 * h, f);
    lemma_mod_bound(4 * h, f);
    assert(0 <= w < 4) by (nonlinear_arith)
        requires
            4 * h == f * w + r,
            0 <= r < f,
            0 <= h < f,
    ;
    assert(4 * v == (4 * g + w) * f + r) by (nonlinear_arith)
        requires
            v == f * g + h,
            4 * h == f * w + r,
    ;
    lemma_fundamental_div_mod_converse(4 * v, f, 4 * g + w, r);
}

proof fn lemma_small_quotient(v: int, f: int)
    requires
        is_smi(v),
        f >= 1,
    ensures
        is_smi(v / f),
{
    lemma_fundamental_div_mod(v, f);
    lemma_mod_bound(v, f);
    let q = v / f;
    assert(q >= 0x2000_0000_0000_0000 ==> f * q >= q) by (nonlinear_arith)
        requires
            f >= 1,
    ;
    assert(q < -0x2000_0000_0000_0000 ==> f * q + (f - 1) <= q) by (nonlinear_arith)
        requires
            f >= 1,
    ;
}

// ── Guards ──────────────────────────────────────────────────────────────

/// The word of an object's class.
pub open spec fn class_word(m: Cpu, object: u64) -> u64 {
    (m.mem)(object + 7)
}

/// Whether an index guard lets pass: a heap object of the class, and a small integer from one to the
/// object's size as its index.
pub open spec fn index_fits(m: Cpu, object: u64, index: u64, class: u64, size: int) -> bool {
    &&& object & 3 == 1
    &&& class_word(m, object) == class
    &&& index & 3 == 0
    &&& 1 <= signed(index) / 4 <= size
}

/// The guards of an indexed access, from instruction `n` on.
pub open spec fn is_index_guard(c: Code, n: int, ro: u8, ri: u8, klass: LiteralId, size_off: i64, l: Label) -> bool {
    &&& c.insns[n] == Insn::Op("and"@, seq![spec_x(19), spec_x(ro), spec_imm(3)])
    &&& c.insns[n + 1] == Insn::Op("cmp"@, seq![spec_x(19), spec_imm(1)])
    &&& c.insns[n + 2] == Insn::BCond(Cond::Ne, l)
    &&& c.insns[n + 3] == Insn::Op("ldur"@, seq![spec_x(19), spec_mem(ro, 7)])
    &&& c.insns[n + 4] == Insn::LdrLit(spec_xr(20), klass)
    &&& c.insns[n + 5] == Insn::Op("cmp"@, seq![spec_x(19), spec_x(20)])
    &&& c.insns[n + 6] == Insn::BCond(Cond::Ne, l)
    &&& c.insns[n + 7] == Insn::Op("tst"@, seq![spec_x(ri), spec_imm(3)])
    &&& c.insns[n + 8] == Insn::BCond(Cond::Ne, l)
    &&& c.insns[n + 9] == Insn::Op("ldur"@, seq![spec_x(19), spec_mem(ro, size_off)])
    &&& c.insns[n + 10] == Insn::Op("sub"@, seq![spec_x(20), spec_x(ri), spec_imm(4)])
    &&& c.insns[n + 11] == Insn::Op("cmp"@, seq![spec_x(20), spec_x(19)])
    &&& c.insns[n + 12] == Insn::BCond(Cond::Hs, l)
    &&& l.0 < c.labels.len()
    &&& c.labels[l.0 as int] matches Some(t) ==> t <= n
}

pub(crate) proof fn lemma_index_guard_code(s: St, ro: u8, ri: u8, klass: LiteralId, size_off: i64, l: Label)
    requires
        l.0 < s.code.labels.len(),
        s.code.labels[l.0 as int] matches Some(t) ==> t <= s.code.insns.len(),
        ro < 31,
        ri < 31,
    ensures
        ({
            let c = s.indexed_guards(spec_xr(ro), spec_xr(ri), klass, size_off, l).code;
            c.insns.len() == s.code.insns.len() + 13 && is_index_guard(c, s.code.insns.len() as int, ro, ri, klass, size_off, l) && c.pool == s.code.pool
        }),
{
}

/// The one unsigned comparison of an index, less one, with the size: both tagged.
proof fn lemma_index_window(index: u64, size: int)
    requires
        index % 4 == 0,
        is_smi(size),
        0 <= size,
    ensures
        word(signed(index) - 4) >= smi(size) <==> !(1 <= signed(index) / 4 <= size),
{
}

#[verifier::spinoff_prover]
pub(crate) proof fn lemma_index_guard_run(
    c: Code,
    n: int,
    ro: u8,
    ri: u8,
    klass: LiteralId,
    size_off: i64,
    l: Label,
    m: Cpu,
    size: int,
)
    requires
        0 <= n,
        ro < 31,
        ro != 19,
        ro != 20,
        ri < 31,
        ri != 19,
        ri != 20,
        m.x.len() == 32,
        is_index_guard(c, n, ro, ri, klass, size_off, l),
        is_smi(size),
        0 <= size,
        m.x[ro as int] & 3 == 1 && class_word(m, m.x[ro as int]) == c.pool[klass.0 as int].0 ==> (m.mem)(
            m.x[ro as int] + size_off,
        ) == smi(size),
    ensures
        match run(c, n, m, n + 13) {
            Ctl::At(e) => index_fits(m, m.x[ro as int], m.x[ri as int], c.pool[klass.0 as int].0, size) && e.mem == m.mem
                && e.x.len() == 32 && forall|r: int| 0 <= r < 32 && r != 19 && r != 20 ==> #[trigger] e.x[r] == m.x[r],
            Ctl::To(t, e) => !index_fits(m, m.x[ro as int], m.x[ri as int], c.pool[klass.0 as int].0, size) && t == l
                && e.mem == m.mem && e.x.len() == 32 && forall|r: int|
                0 <= r < 32 && r != 19 && r != 20 ==> #[trigger] e.x[r] == m.x[r],
            _ => false,
        },
{
    lemma_mnemonics();
    let object = m.x[ro as int];
    let index = m.x[ri as int];
    let class = c.pool[klass.0 as int].0;
    lemma_word(3);
    lemma_word(1);
    lemma_word(4);
    let m1 = Cpu { x: m.x.update(19, object & 3), ..m };
    lemma_next(c, n, m, n);
    assert(run(c, n, m, n + 1) == Ctl::At(m1));
    let m2 = Cpu { f: difference(object & 3, 1), ..m1 };
    lemma_next(c, n, m, n + 1);
    assert(run(c, n, m, n + 2) == Ctl::At(m2));
    lemma_next(c, n, m, n + 2);
    if object & 3 != 1 {
        assert(run(c, n, m, n + 3) == Ctl::To(l, m2));
        lemma_gone(c, n, m, n + 3, n + 13, l, m2);
    } else {
        let found = class_word(m, object);
        let m3 = Cpu { x: m2.x.update(19, found), ..m2 };
        lemma_next(c, n, m, n + 3);
        assert(run(c, n, m, n + 4) == Ctl::At(m3));
        let m4 = Cpu { x: m3.x.update(20, class), ..m3 };
        lemma_next(c, n, m, n + 4);
        assert(run(c, n, m, n + 5) == Ctl::At(m4));
        let m5 = Cpu { f: difference(found, class), ..m4 };
        lemma_next(c, n, m, n + 5);
        assert(run(c, n, m, n + 6) == Ctl::At(m5));
        lemma_next(c, n, m, n + 6);
        if found != class {
            assert(run(c, n, m, n + 7) == Ctl::To(l, m5));
            lemma_gone(c, n, m, n + 7, n + 13, l, m5);
        } else {
            let m6 = Cpu { f: tested(index, 3), ..m5 };
            lemma_next(c, n, m, n + 7);
            assert(run(c, n, m, n + 8) == Ctl::At(m6));
            lemma_next(c, n, m, n + 8);
            if index & 3 != 0 {
                assert(run(c, n, m, n + 9) == Ctl::To(l, m6));
                lemma_gone(c, n, m, n + 9, n + 13, l, m6);
            } else {
                assert(index & 3 == 0 ==> index % 4 == 0) by (bit_vector);
                let m7 = Cpu { x: m6.x.update(19, smi(size)), ..m6 };
                lemma_next(c, n, m, n + 9);
                assert(run(c, n, m, n + 10) == Ctl::At(m7));
                let less = word(signed(index) - 4);
                let m8 = Cpu { x: m7.x.update(20, less), ..m7 };
                lemma_next(c, n, m, n + 10);
                assert(run(c, n, m, n + 11) == Ctl::At(m8));
                let m9 = Cpu { f: difference(less, smi(size)), ..m8 };
                lemma_next(c, n, m, n + 11);
                assert(run(c, n, m, n + 12) == Ctl::At(m9));
                lemma_next(c, n, m, n + 12);
                lemma_index_window(index, size);
            }
        }
    }
}

/// An index guard lets exactly the accesses pass that are in range: to a heap object of the class
/// that the site expects, with a small integer from one to the object's size. It changes nothing but
/// two scratch registers; all else goes to the failure label.
pub proof fn law_indices_are_checked(
    s: St,
    ro: u8,
    ri: u8,
    klass: LiteralId,
    size_off: i64,
    fail: Label,
    m: Cpu,
    size: int,
)
    requires
        behind(s, fail),
        ro < 31,
        ro != 19,
        ro != 20,
        ri < 31,
        ri != 19,
        ri != 20,
        klass.0 < s.code.pool.len(),
        m.x.len() == 32,
        is_smi(size),
        0 <= size,
        m.x[ro as int] & 3 == 1 && class_word(m, m.x[ro as int]) == s.code.pool[klass.0 as int].0 ==> (m.mem)(
            m.x[ro as int] + size_off,
        ) == smi(size),
    ensures
        ({
            let fits = index_fits(m, m.x[ro as int], m.x[ri as int], s.code.pool[klass.0 as int].0, size);
            match added(s, s.indexed_guards(spec_xr(ro), spec_xr(ri), klass, size_off, fail), m) {
                Ctl::At(e) => fits && forall|r: int|
                    0 <= r < 32 && r != 19 && r != 20 ==> #[trigger] e.x[r] == m.x[r],
                Ctl::To(l, _) => !fits && l == fail,
                _ => false,
            }
        }),
{
    lemma_index_guard_code(s, ro, ri, klass, size_off, fail);
    lemma_index_guard_run(
        s.indexed_guards(spec_xr(ro), spec_xr(ri), klass, size_off, fail).code,
        s.code.insns.len() as int,
        ro,
        ri,
        klass,
        size_off,
        fail,
        m,
        size,
    );
}

/// The class of a receiver: that of small integers, or what its class word says.
pub open spec fn receiver_class(m: Cpu, g: EntryGuard) -> u64 {
    if m.x[0] & 3 == 0 {
        g.smi_klass_bits
    } else {
        class_word(m, m.x[0])
    }
}

/// The guard of a class of heap objects, from instruction `n` on.
pub open spec fn is_heap_guard(c: Code, n: int, key: LiteralId, resolve: LiteralId, miss: Label, matched: Label) -> bool {
    &&& c.insns.len() == n + 8
    &&& c.insns[n] == Insn::Op("tst"@, seq![spec_x(0), spec_imm(3)])
    &&& c.insns[n + 1] == Insn::BCond(Cond::Eq, miss)
    &&& c.insns[n + 2] == Insn::Op("ldur"@, seq![spec_x(17), spec_mem(0, 7)])
    &&& c.insns[n + 3] == Insn::LdrLit(spec_xr(16), key)
    &&& c.insns[n + 4] == Insn::Op("cmp"@, seq![spec_x(17), spec_x(16)])
    &&& c.insns[n + 5] == Insn::BCond(Cond::Eq, matched)
    &&& c.insns[n + 6] == Insn::LdrLit(spec_xr(16), resolve)
    &&& c.insns[n + 7] == Insn::Op("br"@, seq![spec_x(16)])
    &&& miss.0 < c.labels.len()
    &&& c.labels[miss.0 as int] == Some((n + 6) as nat)
    &&& matched.0 < c.labels.len()
    &&& c.labels[matched.0 as int] == Some((n + 8) as nat)
}

/// The guard of the class of small integers, from instruction `n` on.
pub open spec fn is_smi_guard(
    c: Code,
    n: int,
    key: LiteralId,
    resolve: LiteralId,
    own: LiteralId,
    small: Label,
    loaded: Label,
    matched: Label,
) -> bool {
    &&& c.insns.len() == n + 10
    &&& c.insns[n] == Insn::Op("tst"@, seq![spec_x(0), spec_imm(3)])
    &&& c.insns[n + 1] == Insn::BCond(Cond::Eq, small)
    &&& c.insns[n + 2] == Insn::Op("ldur"@, seq![spec_x(17), spec_mem(0, 7)])
    &&& c.insns[n + 3] == Insn::B(loaded)
    &&& c.insns[n + 4] == Insn::LdrLit(spec_xr(17), own)
    &&& c.insns[n + 5] == Insn::LdrLit(spec_xr(16), key)
    &&& c.insns[n + 6] == Insn::Op("cmp"@, seq![spec_x(17), spec_x(16)])
    &&& c.insns[n + 7] == Insn::BCond(Cond::Eq, matched)
    &&& c.insns[n + 8] == Insn::LdrLit(spec_xr(16), resolve)
    &&& c.insns[n + 9] == Insn::Op("br"@, seq![spec_x(16)])
    &&& small.0 < c.labels.len()
    &&& c.labels[small.0 as int] == Some((n + 4) as nat)
    &&& loaded.0 < c.labels.len()
    &&& c.labels[loaded.0 as int] == Some((n + 5) as nat)
    &&& matched.0 < c.labels.len()
    &&& c.labels[matched.0 as int] == Some((n + 10) as nat)
}

#[verifier::spinoff_prover]
proof fn lemma_guard_code(s: St, g: EntryGuard, key: LiteralId, resolve: LiteralId, own: LiteralId)
    requires
        s.code.labels.len() < u32::MAX - 3,
    ensures
        ({
            let c = s.entry_guard(g, key, resolve, own).code;
            let n = s.code.insns.len() as int;
            let k = s.code.labels.len();
            &&& c.pool == s.code.pool
            &&& g.key_klass_bits != g.smi_klass_bits ==> is_heap_guard(
                c,
                n,
                key,
                resolve,
                Label(k as u32),
                Label((k + 1) as u32),
            )
            &&& g.key_klass_bits == g.smi_klass_bits ==> is_smi_guard(
                c,
                n,
                key,
                resolve,
                own,
                Label(k as u32),
                Label((k + 1) as u32),
                Label((k + 2) as u32),
            )
        }),
{
}

#[verifier::spinoff_prover]
proof fn lemma_heap_guard_run(
    c: Code,
    n: int,
    key: LiteralId,
    resolve: LiteralId,
    miss: Label,
    matched: Label,
    m: Cpu,
)
    requires
        0 <= n,
        m.x.len() == 32,
        is_heap_guard(c, n, key, resolve, miss, matched),
        miss != matched,
    ensures
        ({
            let hit = m.x[0] & 3 != 0 && class_word(m, m.x[0]) == c.pool[key.0 as int].0;
            match run(c, n, m, n + 8) {
                Ctl::At(e) => hit && e.x[30] == m.x[30] && e.x[0] == m.x[0],
                Ctl::Out(to, e) => !hit && to == c.pool[resolve.0 as int].0 && e.x[30] == m.x[30] && e.x[0] == m.x[0],
                _ => false,
            }
        }),
{
    lemma_mnemonics();
    lemma_word(3);
    let object = m.x[0];
    let m1 = Cpu { f: tested(object, 3), ..m };
    lemma_next(c, n, m, n);
    assert(run(c, n, m, n + 1) == Ctl::At(m1));
    lemma_next(c, n, m, n + 1);
    if object & 3 == 0 {
        assert(run(c, n, m, n + 2) == Ctl::To(miss, m1));
        lemma_gone(c, n, m, n + 2, n + 5, miss, m1);
        lemma_next(c, n, m, n + 5);
        lemma_heap_miss(c, n, m, key, resolve, miss, matched, m1);
    } else {
        assert(run(c, n, m, n + 2) == Ctl::At(m1));
        let found = class_word(m, object);
        let m2 = Cpu { x: m1.x.update(17, found), ..m1 };
        lemma_next(c, n, m, n + 2);
        assert(run(c, n, m, n + 3) == Ctl::At(m2));
        let m3 = Cpu { x: m2.x.update(16, c.pool[key.0 as int].0), ..m2 };
        lemma_next(c, n, m, n + 3);
        assert(run(c, n, m, n + 4) == Ctl::At(m3));
        let m4 = Cpu { f: difference(found, c.pool[key.0 as int].0), ..m3 };
        lemma_next(c, n, m, n + 4);
        assert(run(c, n, m, n + 5) == Ctl::At(m4));
        lemma_next(c, n, m, n + 5);
        if found == c.pool[key.0 as int].0 {
            assert(run(c, n, m, n + 6) == Ctl::To(matched, m4));
            lemma_gone(c, n, m, n + 6, n + 7, matched, m4);
            lemma_next(c, n, m, n + 7);
        } else {
            lemma_heap_miss(c, n, m, key, resolve, miss, matched, m4);
        }
    }
}

proof fn lemma_heap_miss(
    c: Code,
    n: int,
    m: Cpu,
    key: LiteralId,
    resolve: LiteralId,
    miss: Label,
    matched: Label,
    g: Cpu,
)
    requires
        0 <= n,
        g.x.len() == 32,
        is_heap_guard(c, n, key, resolve, miss, matched),
        run(c, n, m, n + 6) == Ctl::At(g),
    ensures
        run(c, n, m, n + 8) matches Ctl::Out(to, e) && to == c.pool[resolve.0 as int].0 && e.x[30] == g.x[30] && e.x[0]
            == g.x[0],
{
    lemma_mnemonics();
    lemma_next(c, n, m, n + 6);
    lemma_next(c, n, m, n + 7);
}

#[verifier::spinoff_prover]
proof fn lemma_smi_guard_run(
    c: Code,
    n: int,
    key: LiteralId,
    resolve: LiteralId,
    own: LiteralId,
    small: Label,
    loaded: Label,
    matched: Label,
    m: Cpu,
)
    requires
        0 <= n,
        m.x.len() == 32,
        is_smi_guard(c, n, key, resolve, own, small, loaded, matched),
    ensures
        ({
            let class = if m.x[0] & 3 == 0 {
                c.pool[own.0 as int].0
            } else {
                class_word(m, m.x[0])
            };
            let hit = class == c.pool[key.0 as int].0;
            match run(c, n, m, n + 10) {
                Ctl::At(e) => hit && e.x[30] == m.x[30] && e.x[0] == m.x[0],
                Ctl::Out(to, e) => !hit && to == c.pool[resolve.0 as int].0 && e.x[30] == m.x[30] && e.x[0] == m.x[0],
                _ => false,
            }
        }),
{
    lemma_mnemonics();
    lemma_word(3);
    let object = m.x[0];
    let class = if object & 3 == 0 {
        c.pool[own.0 as int].0
    } else {
        class_word(m, object)
    };
    let m1 = Cpu { f: tested(object, 3), ..m };
    lemma_next(c, n, m, n);
    assert(run(c, n, m, n + 1) == Ctl::At(m1));
    lemma_next(c, n, m, n + 1);
    let m2 = Cpu { x: m1.x.update(17, class), ..m1 };
    if object & 3 == 0 {
        assert(run(c, n, m, n + 2) == Ctl::To(small, m1));
        lemma_gone(c, n, m, n + 2, n + 3, small, m1);
        lemma_next(c, n, m, n + 3);
        assert(run(c, n, m, n + 4) == Ctl::At(m1));
        lemma_next(c, n, m, n + 4);
    } else {
        lemma_next(c, n, m, n + 2);
        assert(run(c, n, m, n + 3) == Ctl::At(m2));
        lemma_next(c, n, m, n + 3);
        assert(run(c, n, m, n + 4) == Ctl::To(loaded, m2));
        lemma_next(c, n, m, n + 4);
    }
    assert(run(c, n, m, n + 5) == Ctl::At(m2));
    let m3 = Cpu { x: m2.x.update(16, c.pool[key.0 as int].0), ..m2 };
    lemma_next(c, n, m, n + 5);
    assert(run(c, n, m, n + 6) == Ctl::At(m3));
    let m4 = Cpu { f: difference(class, c.pool[key.0 as int].0), ..m3 };
    lemma_next(c, n, m, n + 6);
    assert(run(c, n, m, n + 7) == Ctl::At(m4));
    lemma_next(c, n, m, n + 7);
    if class == c.pool[key.0 as int].0 {
        assert(run(c, n, m, n + 8) == Ctl::To(matched, m4));
        lemma_gone(c, n, m, n + 8, n + 9, matched, m4);
        lemma_next(c, n, m, n + 9);
    } else {
        assert(run(c, n, m, n + 8) == Ctl::At(m4));
        lemma_next(c, n, m, n + 8);
        lemma_next(c, n, m, n + 9);
    }
}

/// The class guard lets exactly the receivers of its class through; for any other it branches to the
/// resolver. Either way the receiver and the return address stay.
pub proof fn law_class_guard_is_exact(
    s: St,
    g: EntryGuard,
    key: LiteralId,
    resolve: LiteralId,
    own: LiteralId,
    m: Cpu,
)
    requires
        s.code.labels.len() < u32::MAX - 3,
        m.x.len() == 32,
        s.code.pool[key.0 as int].0 == g.key_klass_bits,
        s.code.pool[resolve.0 as int].0 == g.resolve_addr,
        g.key_klass_bits == g.smi_klass_bits ==> s.code.pool[own.0 as int].0 == g.smi_klass_bits,
    ensures
        match added(s, s.entry_guard(g, key, resolve, own), m) {
            Ctl::At(e) => receiver_class(m, g) == g.key_klass_bits && e.x[30] == m.x[30] && e.x[0] == m.x[0],
            Ctl::Out(to, e) => receiver_class(m, g) != g.key_klass_bits && to == g.resolve_addr && e.x[30] == m.x[30]
                && e.x[0] == m.x[0],
            _ => false,
        },
{
    let c = s.entry_guard(g, key, resolve, own).code;
    let n = s.code.insns.len() as int;
    let k = s.code.labels.len();
    lemma_guard_code(s, g, key, resolve, own);
    if g.key_klass_bits != g.smi_klass_bits {
        lemma_heap_guard_run(c, n, key, resolve, Label(k as u32), Label((k + 1) as u32), m);
    } else {
        lemma_smi_guard_run(
            c,
            n,
            key,
            resolve,
            own,
            Label(k as u32),
            Label((k + 1) as u32),
            Label((k + 2) as u32),
            m,
        );
    }
}

} // verus!
