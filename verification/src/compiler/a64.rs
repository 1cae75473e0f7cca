//! AArch64 operands and the word encoder behind the assembler.
//!
//! The encoder covers the instruction forms that the compiler emits. Each form is stated by
//! [`encoding`]: the word, or `None` where the operands do not fit the form.
use vstd::prelude::*;
use crate::text::{push_dec, push_int, text_eq};
#[allow(unused_imports)]
use crate::text::{dec_text, int_text};

verus! {

/// Register file and width of a register operand.
#[derive(Clone, Copy, Debug, PartialEq, Eq, Structural)]
pub enum RegClass {
    X,
    W,
    D,
    Q,
}

/// One register. Number 31 is the stack pointer where `is_sp` is set, the zero register elsewhere.
#[derive(Clone, Copy, Debug, PartialEq, Eq, Structural)]
pub struct Reg {
    pub class: RegClass,
    pub num: u8,
    pub is_sp: bool,
}

/// Lane arrangement of a vector operand.
#[derive(Clone, Copy, Debug, PartialEq, Eq, Structural)]
pub enum Arr {
    D2,
    S4,
}

/// Element size of a vector lane.
#[derive(Clone, Copy, Debug, PartialEq, Eq, Structural)]
pub enum ElemSize {
    D,
}

/// How a memory operand forms its address.
#[derive(Clone, Copy, Debug, PartialEq, Eq, Structural)]
pub enum Addr {
    Offset(i64),
    PreIndex(i64),
    PostIndex(i64),
}

/// A memory operand.
#[derive(Clone, Copy, Debug, PartialEq, Eq, Structural)]
pub struct Mem {
    pub base: Reg,
    pub addr: Addr,
}

/// A shift applied to a register operand.
#[derive(Clone, Copy, Debug, PartialEq, Eq, Structural)]
pub enum Shift {
    Lsl,
    Lsr,
    Asr,
}

/// AArch64 condition codes.
#[derive(Clone, Copy, Debug, PartialEq, Eq, Structural)]
pub enum Cond {
    Eq,
    Ne,
    Hs,
    Lo,
    Mi,
    Pl,
    Vs,
    Vc,
    Hi,
    Ls,
    Ge,
    Lt,
    Gt,
    Le,
}

/// One instruction operand.
#[derive(Clone, Copy, Debug, PartialEq, Eq, Structural)]
pub enum Operand {
    Reg(Reg),
    Imm(i64),
    ImmShift(i64, u32),
    RegShift(Reg, Shift, u32),
    Mem(Mem),
    VReg { num: u8, arr: Arr },
    VElem { num: u8, esize: ElemSize, index: u8 },
    Sym(Cond),
}

/// The mnemonics that the encoder knows.
#[derive(Clone, Copy, Debug, PartialEq, Eq, Structural)]
pub enum Mnemonic {
    Add,
    Adds,
    And,
    Asr,
    Asrv,
    Blr,
    Br,
    Compare,
    Csel,
    Eor,
    Fadd,
    FCompare,
    Fdiv,
    Fmov,
    Fmul,
    Fsub,
    Ldp,
    Ldr,
    Ldur,
    Ldurb,
    Lsl,
    Lslv,
    Lsr,
    Mov,
    Movk,
    Movz,
    Msub,
    Mul,
    Neg,
    Nop,
    Orr,
    Ret,
    Sdiv,
    Smulh,
    Stp,
    Str,
    Strb,
    Stur,
    Sturb,
    Sub,
    Subs,
    Tst,
    Umov,
}

/// The mnemonic that a name spells, if the encoder knows it.
#[verifier::opaque]
pub open spec fn mnemonic_of(name: Seq<char>) -> Option<Mnemonic> {
    if name == "add"@ {
        Some(Mnemonic::Add)
    } else if name == "adds"@ {
        Some(Mnemonic::Adds)
    } else if name == "and"@ {
        Some(Mnemonic::And)
    } else if name == "asr"@ {
        Some(Mnemonic::Asr)
    } else if name == "asrv"@ {
        Some(Mnemonic::Asrv)
    } else if name == "blr"@ {
        Some(Mnemonic::Blr)
    } else if name == "br"@ {
        Some(Mnemonic::Br)
    } else if name == "cmp"@ {
        Some(Mnemonic::Compare)
    } else if name == "csel"@ {
        Some(Mnemonic::Csel)
    } else if name == "eor"@ {
        Some(Mnemonic::Eor)
    } else if name == "fadd"@ {
        Some(Mnemonic::Fadd)
    } else if name == "fcmp"@ {
        Some(Mnemonic::FCompare)
    } else if name == "fdiv"@ {
        Some(Mnemonic::Fdiv)
    } else if name == "fmov"@ {
        Some(Mnemonic::Fmov)
    } else if name == "fmul"@ {
        Some(Mnemonic::Fmul)
    } else if name == "fsub"@ {
        Some(Mnemonic::Fsub)
    } else if name == "ldp"@ {
        Some(Mnemonic::Ldp)
    } else if name == "ldr"@ {
        Some(Mnemonic::Ldr)
    } else if name == "ldur"@ {
        Some(Mnemonic::Ldur)
    } else if name == "ldurb"@ {
        Some(Mnemonic::Ldurb)
    } else if name == "lsl"@ {
        Some(Mnemonic::Lsl)
    } else if name == "lslv"@ {
        Some(Mnemonic::Lslv)
    } else if name == "lsr"@ {
        Some(Mnemonic::Lsr)
    } else if name == "mov"@ {
        Some(Mnemonic::Mov)
    } else if name == "movk"@ {
        Some(Mnemonic::Movk)
    } else if name == "movz"@ {
        Some(Mnemonic::Movz)
    } else if name == "msub"@ {
        Some(Mnemonic::Msub)
    } else if name == "mul"@ {
        Some(Mnemonic::Mul)
    } else if name == "neg"@ {
        Some(Mnemonic::Neg)
    } else if name == "nop"@ {
        Some(Mnemonic::Nop)
    } else if name == "orr"@ {
        Some(Mnemonic::Orr)
    } else if name == "ret"@ {
        Some(Mnemonic::Ret)
    } else if name == "sdiv"@ {
        Some(Mnemonic::Sdiv)
    } else if name == "smulh"@ {
        Some(Mnemonic::Smulh)
    } else if name == "stp"@ {
        Some(Mnemonic::Stp)
    } else if name == "str"@ {
        Some(Mnemonic::Str)
    } else if name == "strb"@ {
        Some(Mnemonic::Strb)
    } else if name == "stur"@ {
        Some(Mnemonic::Stur)
    } else if name == "sturb"@ {
        Some(Mnemonic::Sturb)
    } else if name == "sub"@ {
        Some(Mnemonic::Sub)
    } else if name == "subs"@ {
        Some(Mnemonic::Subs)
    } else if name == "tst"@ {
        Some(Mnemonic::Tst)
    } else if name == "umov"@ {
        Some(Mnemonic::Umov)
    } else {
        None
    }
}

/// Looks a mnemonic up by name.
pub fn mnemonic(name: &str) -> (r: Option<Mnemonic>)
    ensures
        r == mnemonic_of(name@),
{
    reveal(mnemonic_of);
    if text_eq(name, "add") {
        Some(Mnemonic::Add)
    } else if text_eq(name, "adds") {
        Some(Mnemonic::Adds)
    } else if text_eq(name, "and") {
        Some(Mnemonic::And)
    } else if text_eq(name, "asr") {
        Some(Mnemonic::Asr)
    } else if text_eq(name, "asrv") {
        Some(Mnemonic::Asrv)
    } else if text_eq(name, "blr") {
        Some(Mnemonic::Blr)
    } else if text_eq(name, "br") {
        Some(Mnemonic::Br)
    } else if text_eq(name, "cmp") {
        Some(Mnemonic::Compare)
    } else if text_eq(name, "csel") {
        Some(Mnemonic::Csel)
    } else if text_eq(name, "eor") {
        Some(Mnemonic::Eor)
    } else if text_eq(name, "fadd") {
        Some(Mnemonic::Fadd)
    } else if text_eq(name, "fcmp") {
        Some(Mnemonic::FCompare)
    } else if text_eq(name, "fdiv") {
        Some(Mnemonic::Fdiv)
    } else if text_eq(name, "fmov") {
        Some(Mnemonic::Fmov)
    } else if text_eq(name, "fmul") {
        Some(Mnemonic::Fmul)
    } else if text_eq(name, "fsub") {
        Some(Mnemonic::Fsub)
    } else if text_eq(name, "ldp") {
        Some(Mnemonic::Ldp)
    } else if text_eq(name, "ldr") {
        Some(Mnemonic::Ldr)
    } else if text_eq(name, "ldur") {
        Some(Mnemonic::Ldur)
    } else if text_eq(name, "ldurb") {
        Some(Mnemonic::Ldurb)
    } else if text_eq(name, "lsl") {
        Some(Mnemonic::Lsl)
    } else if text_eq(name, "lslv") {
        Some(Mnemonic::Lslv)
    } else if text_eq(name, "lsr") {
        Some(Mnemonic::Lsr)
    } else if text_eq(name, "mov") {
        Some(Mnemonic::Mov)
    } else if text_eq(name, "movk") {
        Some(Mnemonic::Movk)
    } else if text_eq(name, "movz") {
        Some(Mnemonic::Movz)
    } else if text_eq(name, "msub") {
        Some(Mnemonic::Msub)
    } else if text_eq(name, "mul") {
        Some(Mnemonic::Mul)
    } else if text_eq(name, "neg") {
        Some(Mnemonic::Neg)
    } else if text_eq(name, "nop") {
        Some(Mnemonic::Nop)
    } else if text_eq(name, "orr") {
        Some(Mnemonic::Orr)
    } else if text_eq(name, "ret") {
        Some(Mnemonic::Ret)
    } else if text_eq(name, "sdiv") {
        Some(Mnemonic::Sdiv)
    } else if text_eq(name, "smulh") {
        Some(Mnemonic::Smulh)
    } else if text_eq(name, "stp") {
        Some(Mnemonic::Stp)
    } else if text_eq(name, "str") {
        Some(Mnemonic::Str)
    } else if text_eq(name, "strb") {
        Some(Mnemonic::Strb)
    } else if text_eq(name, "stur") {
        Some(Mnemonic::Stur)
    } else if text_eq(name, "sturb") {
        Some(Mnemonic::Sturb)
    } else if text_eq(name, "sub") {
        Some(Mnemonic::Sub)
    } else if text_eq(name, "subs") {
        Some(Mnemonic::Subs)
    } else if text_eq(name, "tst") {
        Some(Mnemonic::Tst)
    } else if text_eq(name, "umov") {
        Some(Mnemonic::Umov)
    } else {
        None
    }
}

/// A number that tells the mnemonic names apart: their first five characters in base 128.
spec fn name_key(s: Seq<char>) -> int {
    let c = |i: int|
        if i < s.len() {
            s[i] as int
        } else {
            0
        };
    c(0) + 128 * c(1) + 16384 * c(2) + 2097152 * c(3) + 268435456 * c(4)
}

/// Every mnemonic name denotes its own mnemonic: no name shadows a later one.
#[verifier::rlimit(60)]
pub proof fn lemma_mnemonics()
    ensures
        mnemonic_of("add"@) == Some(Mnemonic::Add),
        mnemonic_of("adds"@) == Some(Mnemonic::Adds),
        mnemonic_of("and"@) == Some(Mnemonic::And),
        mnemonic_of("asr"@) == Some(Mnemonic::Asr),
        mnemonic_of("asrv"@) == Some(Mnemonic::Asrv),
        mnemonic_of("blr"@) == Some(Mnemonic::Blr),
        mnemonic_of("br"@) == Some(Mnemonic::Br),
        mnemonic_of("cmp"@) == Some(Mnemonic::Compare),
        mnemonic_of("csel"@) == Some(Mnemonic::Csel),
        mnemonic_of("eor"@) == Some(Mnemonic::Eor),
        mnemonic_of("fadd"@) == Some(Mnemonic::Fadd),
        mnemonic_of("fcmp"@) == Some(Mnemonic::FCompare),
        mnemonic_of("fdiv"@) == Some(Mnemonic::Fdiv),
        mnemonic_of("fmov"@) == Some(Mnemonic::Fmov),
        mnemonic_of("fmul"@) == Some(Mnemonic::Fmul),
        mnemonic_of("fsub"@) == Some(Mnemonic::Fsub),
        mnemonic_of("ldp"@) == Some(Mnemonic::Ldp),
        mnemonic_of("ldr"@) == Some(Mnemonic::Ldr),
        mnemonic_of("ldur"@) == Some(Mnemonic::Ldur),
        mnemonic_of("ldurb"@) == Some(Mnemonic::Ldurb),
        mnemonic_of("lsl"@) == Some(Mnemonic::Lsl),
        mnemonic_of("lslv"@) == Some(Mnemonic::Lslv),
        mnemonic_of("lsr"@) == Some(Mnemonic::Lsr),
        mnemonic_of("mov"@) == Some(Mnemonic::Mov),
        mnemonic_of("movk"@) == Some(Mnemonic::Movk),
        mnemonic_of("movz"@) == Some(Mnemonic::Movz),
        mnemonic_of("msub"@) == Some(Mnemonic::Msub),
        mnemonic_of("mul"@) == Some(Mnemonic::Mul),
        mnemonic_of("neg"@) == Some(Mnemonic::Neg),
        mnemonic_of("nop"@) == Some(Mnemonic::Nop),
        mnemonic_of("orr"@) == Some(Mnemonic::Orr),
        mnemonic_of("ret"@) == Some(Mnemonic::Ret),
        mnemonic_of("sdiv"@) == Some(Mnemonic::Sdiv),
        mnemonic_of("smulh"@) == Some(Mnemonic::Smulh),
        mnemonic_of("stp"@) == Some(Mnemonic::Stp),
        mnemonic_of("str"@) == Some(Mnemonic::Str),
        mnemonic_of("strb"@) == Some(Mnemonic::Strb),
        mnemonic_of("stur"@) == Some(Mnemonic::Stur),
        mnemonic_of("sturb"@) == Some(Mnemonic::Sturb),
        mnemonic_of("sub"@) == Some(Mnemonic::Sub),
        mnemonic_of("subs"@) == Some(Mnemonic::Subs),
        mnemonic_of("tst"@) == Some(Mnemonic::Tst),
        mnemonic_of("umov"@) == Some(Mnemonic::Umov),
{
    reveal(mnemonic_of);
    reveal_strlit("add");
    assert(name_key("add"@) == 1651297);
    reveal_strlit("adds");
    assert(name_key("adds"@) == 242823777);
    reveal_strlit("and");
    assert(name_key("and"@) == 1652577);
    reveal_strlit("asr");
    assert(name_key("asr"@) == 1882593);
    reveal_strlit("asrv");
    assert(name_key("asrv"@) == 249346529);
    reveal_strlit("blr");
    assert(name_key("blr"@) == 1881698);
    reveal_strlit("br");
    assert(name_key("br"@) == 14690);
    reveal_strlit("cmp");
    assert(name_key("cmp"@) == 1849059);
    reveal_strlit("csel");
    assert(name_key("csel"@) == 228162019);
    reveal_strlit("eor");
    assert(name_key("eor"@) == 1882085);
    reveal_strlit("fadd");
    assert(name_key("fadd"@) == 211366118);
    reveal_strlit("fcmp");
    assert(name_key("fcmp"@) == 236679654);
    reveal_strlit("fdiv");
    assert(name_key("fdiv"@) == 249197158);
    reveal_strlit("fmov");
    assert(name_key("fmov"@) == 249296614);
    reveal_strlit("fmul");
    assert(name_key("fmul"@) == 228423398);
    reveal_strlit("fsub");
    assert(name_key("fsub"@) == 207452646);
    reveal_strlit("ldp");
    assert(name_key("ldp"@) == 1847916);
    reveal_strlit("ldr");
    assert(name_key("ldr"@) == 1880684);
    reveal_strlit("ldur");
    assert(name_key("ldur"@) == 241005164);
    reveal_strlit("ldurb");
    assert(name_key("ldurb"@) == 26547679852);
    reveal_strlit("lsl");
    assert(name_key("lsl"@) == 1784300);
    reveal_strlit("lslv");
    assert(name_key("lslv"@) == 249248236);
    reveal_strlit("lsr");
    assert(name_key("lsr"@) == 1882604);
    reveal_strlit("mov");
    assert(name_key("mov"@) == 1947629);
    reveal_strlit("movk");
    assert(name_key("movk"@) == 226342893);
    reveal_strlit("movz");
    assert(name_key("movz"@) == 257800173);
    reveal_strlit("msub");
    assert(name_key("msub"@) == 207452653);
    reveal_strlit("mul");
    assert(name_key("mul"@) == 1784557);
    reveal_strlit("neg");
    assert(name_key("neg"@) == 1700590);
    reveal_strlit("nop");
    assert(name_key("nop"@) == 1849326);
    reveal_strlit("orr");
    assert(name_key("orr"@) == 1882479);
    reveal_strlit("ret");
    assert(name_key("ret"@) == 1913586);
    reveal_strlit("sdiv");
    assert(name_key("sdiv"@) == 249197171);
    reveal_strlit("smulh");
    assert(name_key("smulh"@) == 28145710835);
    reveal_strlit("stp");
    assert(name_key("stp"@) == 1849971);
    reveal_strlit("str");
    assert(name_key("str"@) == 1882739);
    reveal_strlit("strb");
    assert(name_key("strb"@) == 207403635);
    reveal_strlit("stur");
    assert(name_key("stur"@) == 241007219);
    reveal_strlit("sturb");
    assert(name_key("sturb"@) == 26547681907);
    reveal_strlit("sub");
    assert(name_key("sub"@) == 1620723);
    reveal_strlit("subs");
    assert(name_key("subs"@) == 242793203);
    reveal_strlit("tst");
    assert(name_key("tst"@) == 1915380);
    reveal_strlit("umov");
    assert(name_key("umov"@) == 249296629);
}

/// The number of a 64-bit general register other than the stack pointer.
pub open spec fn x_num(o: Operand) -> Option<u32> {
    match o {
        Operand::Reg(r) => if r.class is X && !r.is_sp && r.num < 32 {
            Some(r.num as u32)
        } else {
            None
        },
        _ => None,
    }
}

/// The number of a 64-bit general register, the stack pointer among them.
pub open spec fn xsp_num(o: Operand) -> Option<u32> {
    match o {
        Operand::Reg(r) => if r.class is X && r.num < 32 {
            Some(r.num as u32)
        } else {
            None
        },
        _ => None,
    }
}

/// The number of a double register.
pub open spec fn d_num(o: Operand) -> Option<u32> {
    match o {
        Operand::Reg(r) => if r.class is D && r.num < 32 {
            Some(r.num as u32)
        } else {
            None
        },
        _ => None,
    }
}

/// The number of a vector register in the given arrangement.
pub open spec fn v_num(o: Operand, arr: Arr) -> Option<u32> {
    match o {
        Operand::VReg { num, arr: a } => if a == arr && num < 32 {
            Some(num as u32)
        } else {
            None
        },
        _ => None,
    }
}

fn get_x(o: Operand) -> (r: Option<u32>)
    ensures
        r == x_num(o),
{
    match o {
        Operand::Reg(r) => match r.class {
            RegClass::X => if !r.is_sp && r.num < 32 {
                Some(r.num as u32)
            } else {
                None
            },
            _ => None,
        },
        _ => None,
    }
}

fn get_xsp(o: Operand) -> (r: Option<u32>)
    ensures
        r == xsp_num(o),
{
    match o {
        Operand::Reg(r) => match r.class {
            RegClass::X => if r.num < 32 {
                Some(r.num as u32)
            } else {
                None
            },
            _ => None,
        },
        _ => None,
    }
}

fn get_d(o: Operand) -> (r: Option<u32>)
    ensures
        r == d_num(o),
{
    match o {
        Operand::Reg(r) => match r.class {
            RegClass::D => if r.num < 32 {
                Some(r.num as u32)
            } else {
                None
            },
            _ => None,
        },
        _ => None,
    }
}

fn get_v(o: Operand, arr: Arr) -> (r: Option<u32>)
    ensures
        r == v_num(o, arr),
{
    match o {
        Operand::VReg { num, arr: a } => if a == arr && num < 32 {
            Some(num as u32)
        } else {
            None
        },
        _ => None,
    }
}

/// The condition field's value.
pub open spec fn cond_code(c: Cond) -> u32 {
    match c {
        Cond::Eq => 0,
        Cond::Ne => 1,
        Cond::Hs => 2,
        Cond::Lo => 3,
        Cond::Mi => 4,
        Cond::Pl => 5,
        Cond::Vs => 6,
        Cond::Vc => 7,
        Cond::Hi => 8,
        Cond::Ls => 9,
        Cond::Ge => 10,
        Cond::Lt => 11,
        Cond::Gt => 12,
        Cond::Le => 13,
    }
}

/// The condition field's value.
pub fn cond_bits(c: Cond) -> (r: u32)
    ensures
        r == cond_code(c),
        r < 16,
{
    match c {
        Cond::Eq => 0,
        Cond::Ne => 1,
        Cond::Hs => 2,
        Cond::Lo => 3,
        Cond::Mi => 4,
        Cond::Pl => 5,
        Cond::Vs => 6,
        Cond::Vc => 7,
        Cond::Hi => 8,
        Cond::Ls => 9,
        Cond::Ge => 10,
        Cond::Lt => 11,
        Cond::Gt => 12,
        Cond::Le => 13,
    }
}

/// `op Xd, Xn, Xm`.
pub open spec fn enc_rrr(base: u32, ops: Seq<Operand>) -> Option<u32> {
    if ops.len() == 3 {
        match (x_num(ops[0]), x_num(ops[1]), x_num(ops[2])) {
            (Some(d), Some(n), Some(m)) => Some(base | (m << 16) | (n << 5) | d),
            _ => None,
        }
    } else {
        None
    }
}

fn put_rrr(base: u32, ops: &[Operand]) -> (r: Option<u32>)
    ensures
        r == enc_rrr(base, ops@),
{
    if ops.len() == 3 {
        match (get_x(ops[0]), get_x(ops[1]), get_x(ops[2])) {
            (Some(d), Some(n), Some(m)) => Some(base | (m << 16) | (n << 5) | d),
            _ => None,
        }
    } else {
        None
    }
}

/// A twelve-bit immediate, shifted left by twelve where its low twelve bits are zero.
pub open spec fn imm12_field(v: i64) -> Option<u32> {
    if 0 <= v < 4096 {
        Some((v as u32) << 10)
    } else if 0 <= v < 0x100_0000 && v % 4096 == 0 {
        Some(0x40_0000 | (((v / 4096) as u32) << 10))
    } else {
        None
    }
}

fn put_imm12(v: i64) -> (r: Option<u32>)
    ensures
        r == imm12_field(v),
{
    if 0 <= v && v < 4096 {
        Some((v as u32) << 10)
    } else if 0 <= v && v < 0x100_0000 && v % 4096 == 0 {
        Some(0x40_0000 | (((v / 4096) as u32) << 10))
    } else {
        None
    }
}

/// `op Xd|SP, Xn|SP, #imm`.
pub open spec fn enc_rri(base: u32, ops: Seq<Operand>) -> Option<u32> {
    if ops.len() == 3 {
        match (xsp_num(ops[0]), xsp_num(ops[1]), ops[2]) {
            (Some(d), Some(n), Operand::Imm(v)) => match imm12_field(v) {
                Some(f) => Some(base | f | (n << 5) | d),
                None => None,
            },
            _ => None,
        }
    } else {
        None
    }
}

fn put_rri(base: u32, ops: &[Operand]) -> (r: Option<u32>)
    ensures
        r == enc_rri(base, ops@),
{
    if ops.len() == 3 {
        match (get_xsp(ops[0]), get_xsp(ops[1]), ops[2]) {
            (Some(d), Some(n), Operand::Imm(v)) => match put_imm12(v) {
                Some(f) => Some(base | f | (n << 5) | d),
                None => None,
            },
            _ => None,
        }
    } else {
        None
    }
}

/// `op Vd.T, Vn.T, Vm.T`.
pub open spec fn enc_vvv(base: u32, arr: Arr, ops: Seq<Operand>) -> Option<u32> {
    if ops.len() == 3 {
        match (v_num(ops[0], arr), v_num(ops[1], arr), v_num(ops[2], arr)) {
            (Some(d), Some(n), Some(m)) => Some(base | (m << 16) | (n << 5) | d),
            _ => None,
        }
    } else {
        None
    }
}

fn put_vvv(base: u32, arr: Arr, ops: &[Operand]) -> (r: Option<u32>)
    ensures
        r == enc_vvv(base, arr, ops@),
{
    if ops.len() == 3 {
        match (get_v(ops[0], arr), get_v(ops[1], arr), get_v(ops[2], arr)) {
            (Some(d), Some(n), Some(m)) => Some(base | (m << 16) | (n << 5) | d),
            _ => None,
        }
    } else {
        None
    }
}

/// `op Dd, Dn, Dm`.
pub open spec fn enc_ddd(base: u32, ops: Seq<Operand>) -> Option<u32> {
    if ops.len() == 3 {
        match (d_num(ops[0]), d_num(ops[1]), d_num(ops[2])) {
            (Some(d), Some(n), Some(m)) => Some(base | (m << 16) | (n << 5) | d),
            _ => None,
        }
    } else {
        None
    }
}

fn put_ddd(base: u32, ops: &[Operand]) -> (r: Option<u32>)
    ensures
        r == enc_ddd(base, ops@),
{
    if ops.len() == 3 {
        match (get_d(ops[0]), get_d(ops[1]), get_d(ops[2])) {
            (Some(d), Some(n), Some(m)) => Some(base | (m << 16) | (n << 5) | d),
            _ => None,
        }
    } else {
        None
    }
}

/// The first encoding of two that fits.
pub open spec fn first_of(a: Option<u32>, b: Option<u32>) -> Option<u32> {
    match a {
        Some(w) => Some(w),
        None => b,
    }
}

fn pick(a: Option<u32>, b: Option<u32>) -> (r: Option<u32>)
    ensures
        r == first_of(a, b),
{
    match a {
        Some(w) => Some(w),
        None => b,
    }
}

/// A scalar or vector floating-point operation of three registers.
pub open spec fn enc_fp3(scalar: u32, d2: u32, s4: u32, ops: Seq<Operand>) -> Option<u32> {
    first_of(enc_ddd(scalar, ops), first_of(enc_vvv(d2, Arr::D2, ops), enc_vvv(s4, Arr::S4, ops)))
}

fn put_fp3(scalar: u32, d2: u32, s4: u32, ops: &[Operand]) -> (r: Option<u32>)
    ensures
        r == enc_fp3(scalar, d2, s4, ops@),
{
    pick(put_ddd(scalar, ops), pick(put_vvv(d2, Arr::D2, ops), put_vvv(s4, Arr::S4, ops)))
}

/// The bit-mask immediates in use: the two tag bits, and all bits but those.
pub open spec fn mask_field(v: i64) -> Option<u32> {
    if v == 3 {
        Some(0x0040_0400)
    } else if v == -4 {
        Some(0x007E_F400)
    } else {
        None
    }
}

fn put_mask(v: i64) -> (r: Option<u32>)
    ensures
        r == mask_field(v),
{
    if v == 3 {
        Some(0x0040_0400)
    } else if v == -4 {
        Some(0x007E_F400)
    } else {
        None
    }
}

/// `op Xd, Xn, #mask`.
pub open spec fn enc_mask(base: u32, ops: Seq<Operand>) -> Option<u32> {
    if ops.len() == 3 {
        match (x_num(ops[0]), x_num(ops[1]), ops[2]) {
            (Some(d), Some(n), Operand::Imm(v)) => match mask_field(v) {
                Some(f) => Some(base | f | (n << 5) | d),
                None => None,
            },
            _ => None,
        }
    } else {
        None
    }
}

fn put_masked(base: u32, ops: &[Operand]) -> (r: Option<u32>)
    ensures
        r == enc_mask(base, ops@),
{
    if ops.len() == 3 {
        match (get_x(ops[0]), get_x(ops[1]), ops[2]) {
            (Some(d), Some(n), Operand::Imm(v)) => match put_mask(v) {
                Some(f) => Some(base | f | (n << 5) | d),
                None => None,
            },
            _ => None,
        }
    } else {
        None
    }
}

/// The immediate shifts: `lsl`, `lsr` and `asr` by a constant below 64.
pub open spec fn enc_shift(kind: Shift, ops: Seq<Operand>) -> Option<u32> {
    if ops.len() == 3 {
        match (x_num(ops[0]), x_num(ops[1]), ops[2]) {
            (Some(d), Some(n), Operand::Imm(v)) => if 0 <= v < 64 {
                let s = v as u32;
                match kind {
                    Shift::Lsl => Some(
                        0xD340_0000 | ((((64 - s) % 64) as u32) << 16) | (((63 - s) as u32) << 10) | (n << 5)
                            | d,
                    ),
                    Shift::Lsr => Some(0xD340_FC00 | (s << 16) | (n << 5) | d),
                    Shift::Asr => Some(0x9340_FC00 | (s << 16) | (n << 5) | d),
                }
            } else {
                None
            },
            _ => None,
        }
    } else {
        None
    }
}

fn put_shift(kind: Shift, ops: &[Operand]) -> (r: Option<u32>)
    ensures
        r == enc_shift(kind, ops@),
{
    if ops.len() == 3 {
        match (get_x(ops[0]), get_x(ops[1]), ops[2]) {
            (Some(d), Some(n), Operand::Imm(v)) => if 0 <= v && v < 64 {
                let s: u32 = v as u32;
                match kind {
                    Shift::Lsl => Some(
                        0xD340_0000 | (((64 - s) % 64) << 16) | ((63 - s) << 10) | (n << 5) | d,
                    ),
                    Shift::Lsr => Some(0xD340_FC00 | (s << 16) | (n << 5) | d),
                    Shift::Asr => Some(0x9340_FC00 | (s << 16) | (n << 5) | d),
                }
            } else {
                None
            },
            _ => None,
        }
    } else {
        None
    }
}

/// `cmp Xn, Xm`, `cmp Xn, Xm, asr #s` and `cmp Xn, #imm`.
pub open spec fn enc_compare(ops: Seq<Operand>) -> Option<u32> {
    if ops.len() == 2 {
        match (x_num(ops[0]), ops[1]) {
            (Some(n), Operand::Imm(v)) => match imm12_field(v) {
                Some(f) => Some(0xF100_001F | f | (n << 5)),
                None => None,
            },
            (Some(n), Operand::RegShift(m, Shift::Asr, s)) => if x_num(Operand::Reg(m)) is Some && s < 64 {
                Some(0xEB80_001F | ((m.num as u32) << 16) | (s << 10) | (n << 5))
            } else {
                None
            },
            (Some(n), o) => match x_num(o) {
                Some(m) => Some(0xEB00_001F | (m << 16) | (n << 5)),
                None => None,
            },
            _ => None,
        }
    } else {
        None
    }
}

fn put_compare(ops: &[Operand]) -> (r: Option<u32>)
    ensures
        r == enc_compare(ops@),
{
    if ops.len() == 2 {
        match (get_x(ops[0]), ops[1]) {
            (Some(n), Operand::Imm(v)) => match put_imm12(v) {
                Some(f) => Some(0xF100_001F | f | (n << 5)),
                None => None,
            },
            (Some(n), Operand::RegShift(m, Shift::Asr, s)) => if get_x(Operand::Reg(m)).is_some() && s < 64 {
                Some(0xEB80_001F | ((m.num as u32) << 16) | (s << 10) | (n << 5))
            } else {
                None
            },
            (Some(n), o) => match get_x(o) {
                Some(m) => Some(0xEB00_001F | (m << 16) | (n << 5)),
                None => None,
            },
            _ => None,
        }
    } else {
        None
    }
}

/// `mov`: register to register, to or from the stack pointer, and a sixteen-bit constant.
pub open spec fn enc_mov(ops: Seq<Operand>) -> Option<u32> {
    if ops.len() == 2 {
        match (x_num(ops[0]), x_num(ops[1])) {
            (Some(d), Some(m)) => Some(0xAA00_03E0 | (m << 16) | d),
            _ => match (xsp_num(ops[0]), xsp_num(ops[1])) {
                (Some(d), Some(n)) => Some(0x9100_0000 | (n << 5) | d),
                _ => enc_movz(ops),
            },
        }
    } else {
        None
    }
}

fn put_mov(ops: &[Operand]) -> (r: Option<u32>)
    ensures
        r == enc_mov(ops@),
{
    if ops.len() == 2 {
        match (get_x(ops[0]), get_x(ops[1])) {
            (Some(d), Some(m)) => Some(0xAA00_03E0 | (m << 16) | d),
            _ => match (get_xsp(ops[0]), get_xsp(ops[1])) {
                (Some(d), Some(n)) => Some(0x9100_0000 | (n << 5) | d),
                _ => put_movz(ops),
            },
        }
    } else {
        None
    }
}

/// `movz Xd, #imm16`.
pub open spec fn enc_movz(ops: Seq<Operand>) -> Option<u32> {
    if ops.len() == 2 {
        match (x_num(ops[0]), ops[1]) {
            (Some(d), Operand::Imm(v)) => if 0 <= v < 65536 {
                Some(0xD280_0000 | ((v as u32) << 5) | d)
            } else {
                None
            },
            _ => None,
        }
    } else {
        None
    }
}

fn put_movz(ops: &[Operand]) -> (r: Option<u32>)
    ensures
        r == enc_movz(ops@),
{
    if ops.len() == 2 {
        match (get_x(ops[0]), ops[1]) {
            (Some(d), Operand::Imm(v)) => if 0 <= v && v < 65536 {
                Some(0xD280_0000 | ((v as u32) << 5) | d)
            } else {
                None
            },
            _ => None,
        }
    } else {
        None
    }
}

/// `movk Xd, #imm16, lsl #s` with `s` one of 0, 16, 32 and 48.
pub open spec fn enc_movk(ops: Seq<Operand>) -> Option<u32> {
    if ops.len() == 2 {
        match (x_num(ops[0]), ops[1]) {
            (Some(d), Operand::ImmShift(v, s)) => if 0 <= v < 65536 && s < 64 && s % 16 == 0 {
                Some(0xF280_0000 | ((s / 16) << 21) | ((v as u32) << 5) | d)
            } else {
                None
            },
            _ => None,
        }
    } else {
        None
    }
}

fn put_movk(ops: &[Operand]) -> (r: Option<u32>)
    ensures
        r == enc_movk(ops@),
{
    if ops.len() == 2 {
        match (get_x(ops[0]), ops[1]) {
            (Some(d), Operand::ImmShift(v, s)) => if 0 <= v && v < 65536 && s < 64 && s % 16 == 0 {
                Some(0xF280_0000 | ((s / 16) << 21) | ((v as u32) << 5) | d)
            } else {
                None
            },
            _ => None,
        }
    } else {
        None
    }
}

/// The base register and the displacement of a plain `[Xn, #off]` operand.
pub open spec fn mem_off(o: Operand) -> Option<(u32, i64)> {
    match o {
        Operand::Mem(m) => match (xsp_num(Operand::Reg(m.base)), m.addr) {
            (Some(n), Addr::Offset(off)) => Some((n, off)),
            _ => None,
        },
        _ => None,
    }
}

fn get_mem(o: Operand) -> (r: Option<(u32, i64)>)
    ensures
        r == mem_off(o),
{
    match o {
        Operand::Mem(m) => match (get_xsp(Operand::Reg(m.base)), m.addr) {
            (Some(n), Addr::Offset(off)) => Some((n, off)),
            _ => None,
        },
        _ => None,
    }
}

/// A signed nine-bit displacement.
pub open spec fn imm9_field(off: i64) -> Option<u32> {
    if 0 <= off < 256 {
        Some((off as u32) << 12)
    } else if -256 <= off < 0 {
        Some(((off + 512) as u32) << 12)
    } else {
        None
    }
}

fn put_imm9(off: i64) -> (r: Option<u32>)
    ensures
        r == imm9_field(off),
{
    if 0 <= off && off < 256 {
        Some((off as u32) << 12)
    } else if -256 <= off && off < 0 {
        Some(((off + 512) as u32) << 12)
    } else {
        None
    }
}

/// A load or store of `size` bytes: scaled where the displacement is a multiple of the size,
/// unscaled where it fits nine signed bits.
pub open spec fn enc_access(scaled: u32, unscaled: u32, size: int, t: Option<u32>, m: Option<(u32, i64)>) -> Option<
    u32,
> {
    match (t, m) {
        (Some(t), Some((n, off))) => if off >= 0 && (off as int) % size == 0 && (off as int) / size < 4096 {
            Some(scaled | ((((off as int) / size) as u32) << 10) | (n << 5) | t)
        } else {
            match imm9_field(off) {
                Some(f) => Some(unscaled | f | (n << 5) | t),
                None => None,
            }
        },
        _ => None,
    }
}

fn put_access(scaled: u32, unscaled: u32, size: i64, t: Option<u32>, m: Option<(u32, i64)>) -> (r: Option<u32>)
    requires
        size == 1 || size == 4 || size == 8 || size == 16,
    ensures
        r == enc_access(scaled, unscaled, size as int, t, m),
{
    match (t, m) {
        (Some(t), Some((n, off))) => if off >= 0 && off % size == 0 && off / size < 4096 {
            Some(scaled | (((off / size) as u32) << 10) | (n << 5) | t)
        } else {
            match put_imm9(off) {
                Some(f) => Some(unscaled | f | (n << 5) | t),
                None => None,
            }
        },
        _ => None,
    }
}

/// An unscaled load or store.
pub open spec fn enc_unscaled(base: u32, t: Option<u32>, m: Option<(u32, i64)>) -> Option<u32> {
    match (t, m) {
        (Some(t), Some((n, off))) => match imm9_field(off) {
            Some(f) => Some(base | f | (n << 5) | t),
            None => None,
        },
        _ => None,
    }
}

fn put_unscaled(base: u32, t: Option<u32>, m: Option<(u32, i64)>) -> (r: Option<u32>)
    ensures
        r == enc_unscaled(base, t, m),
{
    match (t, m) {
        (Some(t), Some((n, off))) => match put_imm9(off) {
            Some(f) => Some(base | f | (n << 5) | t),
            None => None,
        },
        _ => None,
    }
}

/// `ldr` and `str` of an X, W, D or Q register.
pub open spec fn enc_ldst(load: bool, ops: Seq<Operand>) -> Option<u32> {
    if ops.len() == 2 {
        match ops[0] {
            Operand::Reg(r) => if r.num < 32 && !r.is_sp {
                let t = Some(r.num as u32);
                let m = mem_off(ops[1]);
                match (r.class, load) {
                    (RegClass::X, true) => enc_access(0xF940_0000, 0xF840_0000, 8, t, m),
                    (RegClass::X, false) => enc_access(0xF900_0000, 0xF800_0000, 8, t, m),
                    (RegClass::W, true) => enc_access(0xB940_0000, 0xB840_0000, 4, t, m),
                    (RegClass::W, false) => enc_access(0xB900_0000, 0xB800_0000, 4, t, m),
                    (RegClass::D, true) => enc_access(0xFD40_0000, 0xFC40_0000, 8, t, m),
                    (RegClass::D, false) => enc_access(0xFD00_0000, 0xFC00_0000, 8, t, m),
                    (RegClass::Q, true) => enc_access(0x3DC0_0000, 0x3CC0_0000, 16, t, m),
                    (RegClass::Q, false) => enc_access(0x3D80_0000, 0x3C80_0000, 16, t, m),
                }
            } else {
                None
            },
            _ => None,
        }
    } else {
        None
    }
}

fn put_ldst(load: bool, ops: &[Operand]) -> (r: Option<u32>)
    ensures
        r == enc_ldst(load, ops@),
{
    if ops.len() == 2 {
        match ops[0] {
            Operand::Reg(r) => if r.num < 32 && !r.is_sp {
                let t: Option<u32> = Some(r.num as u32);
                let m: Option<(u32, i64)> = get_mem(ops[1]);
                match (r.class, load) {
                    (RegClass::X, true) => put_access(0xF940_0000, 0xF840_0000, 8, t, m),
                    (RegClass::X, false) => put_access(0xF900_0000, 0xF800_0000, 8, t, m),
                    (RegClass::W, true) => put_access(0xB940_0000, 0xB840_0000, 4, t, m),
                    (RegClass::W, false) => put_access(0xB900_0000, 0xB800_0000, 4, t, m),
                    (RegClass::D, true) => put_access(0xFD40_0000, 0xFC40_0000, 8, t, m),
                    (RegClass::D, false) => put_access(0xFD00_0000, 0xFC00_0000, 8, t, m),
                    (RegClass::Q, true) => put_access(0x3DC0_0000, 0x3CC0_0000, 16, t, m),
                    (RegClass::Q, false) => put_access(0x3D80_0000, 0x3C80_0000, 16, t, m),
                }
            } else {
                None
            },
            _ => None,
        }
    } else {
        None
    }
}

/// The unscaled forms `ldur`, `stur`, `ldurb` and `sturb`.
pub open spec fn enc_ldst_ur(base: u32, ops: Seq<Operand>) -> Option<u32> {
    if ops.len() == 2 {
        enc_unscaled(base, x_num(ops[0]), mem_off(ops[1]))
    } else {
        None
    }
}

fn put_ldst_ur(base: u32, ops: &[Operand]) -> (r: Option<u32>)
    ensures
        r == enc_ldst_ur(base, ops@),
{
    if ops.len() == 2 {
        put_unscaled(base, get_x(ops[0]), get_mem(ops[1]))
    } else {
        None
    }
}

/// `strb Wt, [Xn, #off]`.
pub open spec fn enc_strb(ops: Seq<Operand>) -> Option<u32> {
    if ops.len() == 2 {
        enc_access(0x3900_0000, 0x3800_0000, 1, x_num(ops[0]), mem_off(ops[1]))
    } else {
        None
    }
}

fn put_strb(ops: &[Operand]) -> (r: Option<u32>)
    ensures
        r == enc_strb(ops@),
{
    if ops.len() == 2 {
        put_access(0x3900_0000, 0x3800_0000, 1, get_x(ops[0]), get_mem(ops[1]))
    } else {
        None
    }
}

/// A signed seven-bit displacement in units of eight bytes.
pub open spec fn imm7_field(off: i64) -> Option<u32> {
    if 0 <= off < 512 && off % 8 == 0 {
        Some(((off / 8) as u32) << 15)
    } else if -512 <= off < 0 && (off + 512) % 8 == 0 {
        Some((((off + 512) / 8 + 64) as u32) << 15)
    } else {
        None
    }
}

fn put_imm7(off: i64) -> (r: Option<u32>)
    ensures
        r == imm7_field(off),
{
    if 0 <= off && off < 512 && off % 8 == 0 {
        Some(((off / 8) as u32) << 15)
    } else if -512 <= off && off < 0 && (off + 512) % 8 == 0 {
        Some((((off + 512) / 8 + 64) as u32) << 15)
    } else {
        None
    }
}

/// `stp` and `ldp` of two X registers, with a displacement or a writeback.
pub open spec fn enc_pair(load: bool, ops: Seq<Operand>) -> Option<u32> {
    if ops.len() == 3 {
        match (x_num(ops[0]), x_num(ops[1]), ops[2]) {
            (Some(t), Some(u), Operand::Mem(m)) => match xsp_num(Operand::Reg(m.base)) {
                Some(n) => {
                    let (base, off) = match m.addr {
                        Addr::Offset(off) => (0xA900_0000u32, off),
                        Addr::PreIndex(off) => (0xA980_0000u32, off),
                        Addr::PostIndex(off) => (0xA880_0000u32, off),
                    };
                    let l = if load {
                        0x40_0000u32
                    } else {
                        0u32
                    };
                    match imm7_field(off) {
                        Some(f) => Some(base | l | f | (u << 10) | (n << 5) | t),
                        None => None,
                    }
                },
                None => None,
            },
            _ => None,
        }
    } else {
        None
    }
}

fn put_pair(load: bool, ops: &[Operand]) -> (r: Option<u32>)
    ensures
        r == enc_pair(load, ops@),
{
    if ops.len() == 3 {
        match (get_x(ops[0]), get_x(ops[1]), ops[2]) {
            (Some(t), Some(u), Operand::Mem(m)) => match get_xsp(Operand::Reg(m.base)) {
                Some(n) => {
                    let (base, off): (u32, i64) = match m.addr {
                        Addr::Offset(off) => (0xA900_0000u32, off),
                        Addr::PreIndex(off) => (0xA980_0000u32, off),
                        Addr::PostIndex(off) => (0xA880_0000u32, off),
                    };
                    let l: u32 = if load {
                        0x40_0000u32
                    } else {
                        0u32
                    };
                    match put_imm7(off) {
                        Some(f) => Some(base | l | f | (u << 10) | (n << 5) | t),
                        None => None,
                    }
                },
                None => None,
            },
            _ => None,
        }
    } else {
        None
    }
}

/// `csel Xd, Xn, Xm, cond`.
pub open spec fn enc_csel(ops: Seq<Operand>) -> Option<u32> {
    if ops.len() == 4 {
        match (x_num(ops[0]), x_num(ops[1]), x_num(ops[2]), ops[3]) {
            (Some(d), Some(n), Some(m), Operand::Sym(c)) => Some(
                0x9A80_0000 | (m << 16) | (cond_code(c) << 12) | (n << 5) | d,
            ),
            _ => None,
        }
    } else {
        None
    }
}

fn put_csel(ops: &[Operand]) -> (r: Option<u32>)
    ensures
        r == enc_csel(ops@),
{
    if ops.len() == 4 {
        match (get_x(ops[0]), get_x(ops[1]), get_x(ops[2]), ops[3]) {
            (Some(d), Some(n), Some(m), Operand::Sym(c)) => Some(
                0x9A80_0000 | (m << 16) | (cond_bits(c) << 12) | (n << 5) | d,
            ),
            _ => None,
        }
    } else {
        None
    }
}

/// `msub Xd, Xn, Xm, Xa`.
pub open spec fn enc_msub(ops: Seq<Operand>) -> Option<u32> {
    if ops.len() == 4 {
        match (x_num(ops[0]), x_num(ops[1]), x_num(ops[2]), x_num(ops[3])) {
            (Some(d), Some(n), Some(m), Some(a)) => Some(0x9B00_8000 | (m << 16) | (a << 10) | (n << 5) | d),
            _ => None,
        }
    } else {
        None
    }
}

fn put_msub(ops: &[Operand]) -> (r: Option<u32>)
    ensures
        r == enc_msub(ops@),
{
    if ops.len() == 4 {
        match (get_x(ops[0]), get_x(ops[1]), get_x(ops[2]), get_x(ops[3])) {
            (Some(d), Some(n), Some(m), Some(a)) => Some(0x9B00_8000 | (m << 16) | (a << 10) | (n << 5) | d),
            _ => None,
        }
    } else {
        None
    }
}

/// `fmov` between double registers and between a double and a general register.
pub open spec fn enc_fmov(ops: Seq<Operand>) -> Option<u32> {
    if ops.len() == 2 {
        match (d_num(ops[0]), d_num(ops[1]), x_num(ops[0]), x_num(ops[1])) {
            (Some(d), Some(n), _, _) => Some(0x1E60_4000 | (n << 5) | d),
            (None, Some(n), Some(d), _) => Some(0x9E66_0000 | (n << 5) | d),
            (Some(d), None, _, Some(n)) => Some(0x9E67_0000 | (n << 5) | d),
            _ => None,
        }
    } else {
        None
    }
}

fn put_fmov(ops: &[Operand]) -> (r: Option<u32>)
    ensures
        r == enc_fmov(ops@),
{
    if ops.len() == 2 {
        match (get_d(ops[0]), get_d(ops[1]), get_x(ops[0]), get_x(ops[1])) {
            (Some(d), Some(n), _, _) => Some(0x1E60_4000 | (n << 5) | d),
            (None, Some(n), Some(d), _) => Some(0x9E66_0000 | (n << 5) | d),
            (Some(d), None, _, Some(n)) => Some(0x9E67_0000 | (n << 5) | d),
            _ => None,
        }
    } else {
        None
    }
}

/// `umov Xd, Vn.D[i]`.
pub open spec fn enc_umov(ops: Seq<Operand>) -> Option<u32> {
    if ops.len() == 2 {
        match (x_num(ops[0]), ops[1]) {
            (Some(d), Operand::VElem { num, esize, index }) => if num < 32 && index < 2 {
                Some(0x4E08_3C00 | ((index as u32) << 20) | ((num as u32) << 5) | d)
            } else {
                None
            },
            _ => None,
        }
    } else {
        None
    }
}

fn put_umov(ops: &[Operand]) -> (r: Option<u32>)
    ensures
        r == enc_umov(ops@),
{
    if ops.len() == 2 {
        match (get_x(ops[0]), ops[1]) {
            (Some(d), Operand::VElem { num, esize, index }) => if num < 32 && index < 2 {
                Some(0x4E08_3C00 | ((index as u32) << 20) | ((num as u32) << 5) | d)
            } else {
                None
            },
            _ => None,
        }
    } else {
        None
    }
}

/// A two-register form: the destination in the low bits and the source at `at`.
pub open spec fn enc_two(base: u32, at: u32, d: Option<u32>, n: Option<u32>) -> Option<u32> {
    match (d, n) {
        (Some(d), Some(n)) => Some(base | (n << at) | d),
        _ => None,
    }
}

fn put_two(base: u32, at: u32, d: Option<u32>, n: Option<u32>) -> (r: Option<u32>)
    requires
        at < 32,
    ensures
        r == enc_two(base, at, d, n),
{
    match (d, n) {
        (Some(d), Some(n)) => Some(base | (n << at) | d),
        _ => None,
    }
}

/// The word of one instruction, or `None` where the operands do not fit the mnemonic.
#[verifier::opaque]
pub open spec fn encoding(m: Mnemonic, ops: Seq<Operand>) -> Option<u32> {
    match m {
        Mnemonic::Add => first_of(
            enc_rrr(0x8B00_0000, ops),
            first_of(enc_rri(0x9100_0000, ops), enc_vvv(0x4EA0_8400, Arr::S4, ops)),
        ),
        Mnemonic::Sub => first_of(
            enc_rrr(0xCB00_0000, ops),
            first_of(enc_rri(0xD100_0000, ops), enc_vvv(0x6EA0_8400, Arr::S4, ops)),
        ),
        Mnemonic::Adds => enc_rrr(0xAB00_0000, ops),
        Mnemonic::Subs => enc_rrr(0xEB00_0000, ops),
        Mnemonic::And => first_of(enc_rrr(0x8A00_0000, ops), enc_mask(0x9200_0000, ops)),
        Mnemonic::Orr => enc_rrr(0xAA00_0000, ops),
        Mnemonic::Eor => enc_rrr(0xCA00_0000, ops),
        Mnemonic::Lslv => enc_rrr(0x9AC0_2000, ops),
        Mnemonic::Asrv => enc_rrr(0x9AC0_2800, ops),
        Mnemonic::Mul => first_of(enc_rrr(0x9B00_7C00, ops), enc_vvv(0x4EA0_9C00, Arr::S4, ops)),
        Mnemonic::Smulh => enc_rrr(0x9B40_7C00, ops),
        Mnemonic::Sdiv => enc_rrr(0x9AC0_0C00, ops),
        Mnemonic::Msub => enc_msub(ops),
        Mnemonic::Neg => if ops.len() == 2 {
            enc_two(0xCB00_03E0, 16, x_num(ops[0]), x_num(ops[1]))
        } else {
            None
        },
        Mnemonic::Lsl => enc_shift(Shift::Lsl, ops),
        Mnemonic::Lsr => enc_shift(Shift::Lsr, ops),
        Mnemonic::Asr => enc_shift(Shift::Asr, ops),
        Mnemonic::Compare => enc_compare(ops),
        Mnemonic::Tst => if ops.len() == 2 {
            match (x_num(ops[0]), ops[1]) {
                (Some(n), Operand::Imm(v)) => match mask_field(v) {
                    Some(f) => Some(0xF200_001F | f | (n << 5)),
                    None => None,
                },
                _ => None,
            }
        } else {
            None
        },
        Mnemonic::Mov => enc_mov(ops),
        Mnemonic::Movz => enc_movz(ops),
        Mnemonic::Movk => enc_movk(ops),
        Mnemonic::Ldr => enc_ldst(true, ops),
        Mnemonic::Str => enc_ldst(false, ops),
        Mnemonic::Ldur => enc_ldst_ur(0xF840_0000, ops),
        Mnemonic::Stur => enc_ldst_ur(0xF800_0000, ops),
        Mnemonic::Ldurb => enc_ldst_ur(0x3840_0000, ops),
        Mnemonic::Sturb => enc_ldst_ur(0x3800_0000, ops),
        Mnemonic::Strb => enc_strb(ops),
        Mnemonic::Stp => enc_pair(false, ops),
        Mnemonic::Ldp => enc_pair(true, ops),
        Mnemonic::Csel => enc_csel(ops),
        Mnemonic::Br => if ops.len() == 1 {
            enc_two(0xD61F_0000, 5, Some(0), x_num(ops[0]))
        } else {
            None
        },
        Mnemonic::Blr => if ops.len() == 1 {
            enc_two(0xD63F_0000, 5, Some(0), x_num(ops[0]))
        } else {
            None
        },
        Mnemonic::Ret => if ops.len() == 0 {
            Some(0xD65F_03C0u32)
        } else {
            None
        },
        Mnemonic::Nop => if ops.len() == 0 {
            Some(0xD503_201Fu32)
        } else {
            None
        },
        Mnemonic::Fmov => enc_fmov(ops),
        Mnemonic::Fadd => enc_fp3(0x1E60_2800, 0x4E60_D400, 0x4E20_D400, ops),
        Mnemonic::Fsub => enc_fp3(0x1E60_3800, 0x4EE0_D400, 0x4EA0_D400, ops),
        Mnemonic::Fmul => enc_fp3(0x1E60_0800, 0x6E60_DC00, 0x6E20_DC00, ops),
        Mnemonic::Fdiv => enc_fp3(0x1E60_1800, 0x6E60_FC00, 0x6E20_FC00, ops),
        Mnemonic::FCompare => if ops.len() == 2 {
            match (d_num(ops[0]), d_num(ops[1])) {
                (Some(n), Some(m)) => Some(0x1E60_2000 | (m << 16) | (n << 5)),
                _ => None,
            }
        } else {
            None
        },
        Mnemonic::Umov => enc_umov(ops),
    }
}

pub broadcast proof fn lemma_encode_add(ops: Seq<Operand>)
    ensures
        (#[trigger] encoding(Mnemonic::Add, ops)) == (first_of(
            enc_rrr(0x8B00_0000, ops),
            first_of(enc_rri(0x9100_0000, ops), enc_vvv(0x4EA0_8400, Arr::S4, ops)),
        )),
{
    reveal(encoding);
}

pub broadcast proof fn lemma_encode_sub(ops: Seq<Operand>)
    ensures
        (#[trigger] encoding(Mnemonic::Sub, ops)) == (first_of(
            enc_rrr(0xCB00_0000, ops),
            first_of(enc_rri(0xD100_0000, ops), enc_vvv(0x6EA0_8400, Arr::S4, ops)),
        )),
{
    reveal(encoding);
}

pub broadcast proof fn lemma_encode_adds(ops: Seq<Operand>)
    ensures
        (#[trigger] encoding(Mnemonic::Adds, ops)) == (enc_rrr(0xAB00_0000, ops)),
{
    reveal(encoding);
}

pub broadcast proof fn lemma_encode_subs(ops: Seq<Operand>)
    ensures
        (#[trigger] encoding(Mnemonic::Subs, ops)) == (enc_rrr(0xEB00_0000, ops)),
{
    reveal(encoding);
}

pub broadcast proof fn lemma_encode_and(ops: Seq<Operand>)
    ensures
        (#[trigger] encoding(Mnemonic::And, ops)) == (first_of(enc_rrr(0x8A00_0000, ops), enc_mask(0x9200_0000, ops))),
{
    reveal(encoding);
}

pub broadcast proof fn lemma_encode_orr(ops: Seq<Operand>)
    ensures
        (#[trigger] encoding(Mnemonic::Orr, ops)) == (enc_rrr(0xAA00_0000, ops)),
{
    reveal(encoding);
}

pub broadcast proof fn lemma_encode_eor(ops: Seq<Operand>)
    ensures
        (#[trigger] encoding(Mnemonic::Eor, ops)) == (enc_rrr(0xCA00_0000, ops)),
{
    reveal(encoding);
}

pub broadcast proof fn lemma_encode_lslv(ops: Seq<Operand>)
    ensures
        (#[trigger] encoding(Mnemonic::Lslv, ops)) == (enc_rrr(0x9AC0_2000, ops)),
{
    reveal(encoding);
}

pub broadcast proof fn lemma_encode_asrv(ops: Seq<Operand>)
    ensures
        (#[trigger] encoding(Mnemonic::Asrv, ops)) == (enc_rrr(0x9AC0_2800, ops)),
{
    reveal(encoding);
}

pub broadcast proof fn lemma_encode_mul(ops: Seq<Operand>)
    ensures
        (#[trigger] encoding(Mnemonic::Mul, ops)) == (first_of(enc_rrr(0x9B00_7C00, ops), enc_vvv(0x4EA0_9C00, Arr::S4, ops))),
{
    reveal(encoding);
}

pub broadcast proof fn lemma_encode_smulh(ops: Seq<Operand>)
    ensures
        (#[trigger] encoding(Mnemonic::Smulh, ops)) == (enc_rrr(0x9B40_7C00, ops)),
{
    reveal(encoding);
}

pub broadcast proof fn lemma_encode_sdiv(ops: Seq<Operand>)
    ensures
        (#[trigger] encoding(Mnemonic::Sdiv, ops)) == (enc_rrr(0x9AC0_0C00, ops)),
{
    reveal(encoding);
}

pub broadcast proof fn lemma_encode_msub(ops: Seq<Operand>)
    ensures
        (#[trigger] encoding(Mnemonic::Msub, ops)) == (enc_msub(ops)),
{
    reveal(encoding);
}

pub broadcast proof fn lemma_encode_neg(ops: Seq<Operand>)
    ensures
        (#[trigger] encoding(Mnemonic::Neg, ops)) == (if ops.len() == 2 {
            enc_two(0xCB00_03E0, 16, x_num(ops[0]), x_num(ops[1]))
        } else {
            None
        }),
{
    reveal(encoding);
}

pub broadcast proof fn lemma_encode_lsl(ops: Seq<Operand>)
    ensures
        (#[trigger] encoding(Mnemonic::Lsl, ops)) == (enc_shift(Shift::Lsl, ops)),
{
    reveal(encoding);
}

pub broadcast proof fn lemma_encode_lsr(ops: Seq<Operand>)
    ensures
        (#[trigger] encoding(Mnemonic::Lsr, ops)) == (enc_shift(Shift::Lsr, ops)),
{
    reveal(encoding);
}

pub broadcast proof fn lemma_encode_asr(ops: Seq<Operand>)
    ensures
        (#[trigger] encoding(Mnemonic::Asr, ops)) == (enc_shift(Shift::Asr, ops)),
{
    reveal(encoding);
}

pub broadcast proof fn lemma_encode_compare(ops: Seq<Operand>)
    ensures
        (#[trigger] encoding(Mnemonic::Compare, ops)) == (enc_compare(ops)),
{
    reveal(encoding);
}

pub broadcast proof fn lemma_encode_tst(ops: Seq<Operand>)
    ensures
        (#[trigger] encoding(Mnemonic::Tst, ops)) == (if ops.len() == 2 {
            match (x_num(ops[0]), ops[1]) {
                (Some(n), Operand::Imm(v)) => match mask_field(v) {
                    Some(f) => Some(0xF200_001F | f | (n << 5)),
                    None => None,
                },
                _ => None,
            }
        } else {
            None
        }),
{
    reveal(encoding);
}

pub broadcast proof fn lemma_encode_mov(ops: Seq<Operand>)
    ensures
        (#[trigger] encoding(Mnemonic::Mov, ops)) == (enc_mov(ops)),
{
    reveal(encoding);
}

pub broadcast proof fn lemma_encode_movz(ops: Seq<Operand>)
    ensures
        (#[trigger] encoding(Mnemonic::Movz, ops)) == (enc_movz(ops)),
{
    reveal(encoding);
}

pub broadcast proof fn lemma_encode_movk(ops: Seq<Operand>)
    ensures
        (#[trigger] encoding(Mnemonic::Movk, ops)) == (enc_movk(ops)),
{
    reveal(encoding);
}

pub broadcast proof fn lemma_encode_ldr(ops: Seq<Operand>)
    ensures
        (#[trigger] encoding(Mnemonic::Ldr, ops)) == (enc_ldst(true, ops)),
{
    reveal(encoding);
}

pub broadcast proof fn lemma_encode_str(ops: Seq<Operand>)
    ensures
        (#[trigger] encoding(Mnemonic::Str, ops)) == (enc_ldst(false, ops)),
{
    reveal(encoding);
}

pub broadcast proof fn lemma_encode_ldur(ops: Seq<Operand>)
    ensures
        (#[trigger] encoding(Mnemonic::Ldur, ops)) == (enc_ldst_ur(0xF840_0000, ops)),
{
    reveal(encoding);
}

pub broadcast proof fn lemma_encode_stur(ops: Seq<Operand>)
    ensures
        (#[trigger] encoding(Mnemonic::Stur, ops)) == (enc_ldst_ur(0xF800_0000, ops)),
{
    reveal(encoding);
}

pub broadcast proof fn lemma_encode_ldurb(ops: Seq<Operand>)
    ensures
        (#[trigger] encoding(Mnemonic::Ldurb, ops)) == (enc_ldst_ur(0x3840_0000, ops)),
{
    reveal(encoding);
}

pub broadcast proof fn lemma_encode_sturb(ops: Seq<Operand>)
    ensures
        (#[trigger] encoding(Mnemonic::Sturb, ops)) == (enc_ldst_ur(0x3800_0000, ops)),
{
    reveal(encoding);
}

pub broadcast proof fn lemma_encode_strb(ops: Seq<Operand>)
    ensures
        (#[trigger] encoding(Mnemonic::Strb, ops)) == (enc_strb(ops)),
{
    reveal(encoding);
}

pub broadcast proof fn lemma_encode_stp(ops: Seq<Operand>)
    ensures
        (#[trigger] encoding(Mnemonic::Stp, ops)) == (enc_pair(false, ops)),
{
    reveal(encoding);
}

pub broadcast proof fn lemma_encode_ldp(ops: Seq<Operand>)
    ensures
        (#[trigger] encoding(Mnemonic::Ldp, ops)) == (enc_pair(true, ops)),
{
    reveal(encoding);
}

pub broadcast proof fn lemma_encode_csel(ops: Seq<Operand>)
    ensures
        (#[trigger] encoding(Mnemonic::Csel, ops)) == (enc_csel(ops)),
{
    reveal(encoding);
}

pub broadcast proof fn lemma_encode_br(ops: Seq<Operand>)
    ensures
        (#[trigger] encoding(Mnemonic::Br, ops)) == (if ops.len() == 1 {
            enc_two(0xD61F_0000, 5, Some(0), x_num(ops[0]))
        } else {
            None
        }),
{
    reveal(encoding);
}

pub broadcast proof fn lemma_encode_blr(ops: Seq<Operand>)
    ensures
        (#[trigger] encoding(Mnemonic::Blr, ops)) == (if ops.len() == 1 {
            enc_two(0xD63F_0000, 5, Some(0), x_num(ops[0]))
        } else {
            None
        }),
{
    reveal(encoding);
}

pub broadcast proof fn lemma_encode_ret(ops: Seq<Operand>)
    ensures
        (#[trigger] encoding(Mnemonic::Ret, ops)) == (if ops.len() == 0 {
            Some(0xD65F_03C0u32)
        } else {
            None
        }),
{
    reveal(encoding);
}

pub broadcast proof fn lemma_encode_nop(ops: Seq<Operand>)
    ensures
        (#[trigger] encoding(Mnemonic::Nop, ops)) == (if ops.len() == 0 {
            Some(0xD503_201Fu32)
        } else {
            None
        }),
{
    reveal(encoding);
}

pub broadcast proof fn lemma_encode_fmov(ops: Seq<Operand>)
    ensures
        (#[trigger] encoding(Mnemonic::Fmov, ops)) == (enc_fmov(ops)),
{
    reveal(encoding);
}

pub broadcast proof fn lemma_encode_fadd(ops: Seq<Operand>)
    ensures
        (#[trigger] encoding(Mnemonic::Fadd, ops)) == (enc_fp3(0x1E60_2800, 0x4E60_D400, 0x4E20_D400, ops)),
{
    reveal(encoding);
}

pub broadcast proof fn lemma_encode_fsub(ops: Seq<Operand>)
    ensures
        (#[trigger] encoding(Mnemonic::Fsub, ops)) == (enc_fp3(0x1E60_3800, 0x4EE0_D400, 0x4EA0_D400, ops)),
{
    reveal(encoding);
}

pub broadcast proof fn lemma_encode_fmul(ops: Seq<Operand>)
    ensures
        (#[trigger] encoding(Mnemonic::Fmul, ops)) == (enc_fp3(0x1E60_0800, 0x6E60_DC00, 0x6E20_DC00, ops)),
{
    reveal(encoding);
}

pub broadcast proof fn lemma_encode_fdiv(ops: Seq<Operand>)
    ensures
        (#[trigger] encoding(Mnemonic::Fdiv, ops)) == (enc_fp3(0x1E60_1800, 0x6E60_FC00, 0x6E20_FC00, ops)),
{
    reveal(encoding);
}

pub broadcast proof fn lemma_encode_fcompare(ops: Seq<Operand>)
    ensures
        (#[trigger] encoding(Mnemonic::FCompare, ops)) == (if ops.len() == 2 {
            match (d_num(ops[0]), d_num(ops[1])) {
                (Some(n), Some(m)) => Some(0x1E60_2000 | (m << 16) | (n << 5)),
                _ => None,
            }
        } else {
            None
        }),
{
    reveal(encoding);
}

pub broadcast proof fn lemma_encode_umov(ops: Seq<Operand>)
    ensures
        (#[trigger] encoding(Mnemonic::Umov, ops)) == (enc_umov(ops)),
{
    reveal(encoding);
}

pub broadcast group group_encoding {
    lemma_encode_add,
    lemma_encode_sub,
    lemma_encode_adds,
    lemma_encode_subs,
    lemma_encode_and,
    lemma_encode_orr,
    lemma_encode_eor,
    lemma_encode_lslv,
    lemma_encode_asrv,
    lemma_encode_mul,
    lemma_encode_smulh,
    lemma_encode_sdiv,
    lemma_encode_msub,
    lemma_encode_neg,
    lemma_encode_lsl,
    lemma_encode_lsr,
    lemma_encode_asr,
    lemma_encode_compare,
    lemma_encode_tst,
    lemma_encode_mov,
    lemma_encode_movz,
    lemma_encode_movk,
    lemma_encode_ldr,
    lemma_encode_str,
    lemma_encode_ldur,
    lemma_encode_stur,
    lemma_encode_ldurb,
    lemma_encode_sturb,
    lemma_encode_strb,
    lemma_encode_stp,
    lemma_encode_ldp,
    lemma_encode_csel,
    lemma_encode_br,
    lemma_encode_blr,
    lemma_encode_ret,
    lemma_encode_nop,
    lemma_encode_fmov,
    lemma_encode_fadd,
    lemma_encode_fsub,
    lemma_encode_fmul,
    lemma_encode_fdiv,
    lemma_encode_fcompare,
    lemma_encode_umov,
}

/// Encodes one instruction word.
pub fn encode(m: Mnemonic, ops: &[Operand]) -> (r: Option<u32>)
    ensures
        r == encoding(m, ops@),
{
    reveal(encoding);
    match m {
        Mnemonic::Add => pick(
            put_rrr(0x8B00_0000, ops),
            pick(put_rri(0x9100_0000, ops), put_vvv(0x4EA0_8400, Arr::S4, ops)),
        ),
        Mnemonic::Sub => pick(
            put_rrr(0xCB00_0000, ops),
            pick(put_rri(0xD100_0000, ops), put_vvv(0x6EA0_8400, Arr::S4, ops)),
        ),
        Mnemonic::Adds => put_rrr(0xAB00_0000, ops),
        Mnemonic::Subs => put_rrr(0xEB00_0000, ops),
        Mnemonic::And => pick(put_rrr(0x8A00_0000, ops), put_masked(0x9200_0000, ops)),
        Mnemonic::Orr => put_rrr(0xAA00_0000, ops),
        Mnemonic::Eor => put_rrr(0xCA00_0000, ops),
        Mnemonic::Lslv => put_rrr(0x9AC0_2000, ops),
        Mnemonic::Asrv => put_rrr(0x9AC0_2800, ops),
        Mnemonic::Mul => pick(put_rrr(0x9B00_7C00, ops), put_vvv(0x4EA0_9C00, Arr::S4, ops)),
        Mnemonic::Smulh => put_rrr(0x9B40_7C00, ops),
        Mnemonic::Sdiv => put_rrr(0x9AC0_0C00, ops),
        Mnemonic::Msub => put_msub(ops),
        Mnemonic::Neg => if ops.len() == 2 {
            put_two(0xCB00_03E0, 16, get_x(ops[0]), get_x(ops[1]))
        } else {
            None
        },
        Mnemonic::Lsl => put_shift(Shift::Lsl, ops),
        Mnemonic::Lsr => put_shift(Shift::Lsr, ops),
        Mnemonic::Asr => put_shift(Shift::Asr, ops),
        Mnemonic::Compare => put_compare(ops),
        Mnemonic::Tst => if ops.len() == 2 {
            match (get_x(ops[0]), ops[1]) {
                (Some(n), Operand::Imm(v)) => match put_mask(v) {
                    Some(f) => Some(0xF200_001F | f | (n << 5)),
                    None => None,
                },
                _ => None,
            }
        } else {
            None
        },
        Mnemonic::Mov => put_mov(ops),
        Mnemonic::Movz => put_movz(ops),
        Mnemonic::Movk => put_movk(ops),
        Mnemonic::Ldr => put_ldst(true, ops),
        Mnemonic::Str => put_ldst(false, ops),
        Mnemonic::Ldur => put_ldst_ur(0xF840_0000, ops),
        Mnemonic::Stur => put_ldst_ur(0xF800_0000, ops),
        Mnemonic::Ldurb => put_ldst_ur(0x3840_0000, ops),
        Mnemonic::Sturb => put_ldst_ur(0x3800_0000, ops),
        Mnemonic::Strb => put_strb(ops),
        Mnemonic::Stp => put_pair(false, ops),
        Mnemonic::Ldp => put_pair(true, ops),
        Mnemonic::Csel => put_csel(ops),
        Mnemonic::Br => if ops.len() == 1 {
            put_two(0xD61F_0000, 5, Some(0), get_x(ops[0]))
        } else {
            None
        },
        Mnemonic::Blr => if ops.len() == 1 {
            put_two(0xD63F_0000, 5, Some(0), get_x(ops[0]))
        } else {
            None
        },
        Mnemonic::Ret => if ops.len() == 0 {
            Some(0xD65F_03C0u32)
        } else {
            None
        },
        Mnemonic::Nop => if ops.len() == 0 {
            Some(0xD503_201Fu32)
        } else {
            None
        },
        Mnemonic::Fmov => put_fmov(ops),
        Mnemonic::Fadd => put_fp3(0x1E60_2800, 0x4E60_D400, 0x4E20_D400, ops),
        Mnemonic::Fsub => put_fp3(0x1E60_3800, 0x4EE0_D400, 0x4EA0_D400, ops),
        Mnemonic::Fmul => put_fp3(0x1E60_0800, 0x6E60_DC00, 0x6E20_DC00, ops),
        Mnemonic::Fdiv => put_fp3(0x1E60_1800, 0x6E60_FC00, 0x6E20_FC00, ops),
        Mnemonic::FCompare => if ops.len() == 2 {
            match (get_d(ops[0]), get_d(ops[1])) {
                (Some(n), Some(m)) => Some(0x1E60_2000 | (m << 16) | (n << 5)),
                _ => None,
            }
        } else {
            None
        },
        Mnemonic::Umov => put_umov(ops),
    }
}

/// Whether the encoder has a word for the instruction.
pub open spec fn encodable(name: Seq<char>, ops: Seq<Operand>) -> bool {
    mnemonic_of(name) matches Some(m) && encoding(m, ops) is Some
}

/// The word of an encodable instruction.
pub open spec fn word_of(name: Seq<char>, ops: Seq<Operand>) -> u32 {
    encoding(mnemonic_of(name)->0, ops)->0
}

// ── Listing text ────────────────────────────────────────────────────────

/// The text form of a condition.
pub open spec fn cond_name(c: Cond) -> Seq<char> {
    match c {
        Cond::Eq => "eq"@,
        Cond::Ne => "ne"@,
        Cond::Hs => "hs"@,
        Cond::Lo => "lo"@,
        Cond::Mi => "mi"@,
        Cond::Pl => "pl"@,
        Cond::Vs => "vs"@,
        Cond::Vc => "vc"@,
        Cond::Hi => "hi"@,
        Cond::Ls => "ls"@,
        Cond::Ge => "ge"@,
        Cond::Lt => "lt"@,
        Cond::Gt => "gt"@,
        Cond::Le => "le"@,
    }
}

/// The text form of a condition, as `csel` takes it.
pub fn cond_str(c: Cond) -> (s: &'static str)
    ensures
        s@ == cond_name(c),
{
    match c {
        Cond::Eq => "eq",
        Cond::Ne => "ne",
        Cond::Hs => "hs",
        Cond::Lo => "lo",
        Cond::Mi => "mi",
        Cond::Pl => "pl",
        Cond::Vs => "vs",
        Cond::Vc => "vc",
        Cond::Hi => "hi",
        Cond::Ls => "ls",
        Cond::Ge => "ge",
        Cond::Lt => "lt",
        Cond::Gt => "gt",
        Cond::Le => "le",
    }
}

/// A condition's name as the listing spells it in a branch.
pub open spec fn cond_title(c: Cond) -> Seq<char> {
    match c {
        Cond::Eq => "Eq"@,
        Cond::Ne => "Ne"@,
        Cond::Hs => "Hs"@,
        Cond::Lo => "Lo"@,
        Cond::Mi => "Mi"@,
        Cond::Pl => "Pl"@,
        Cond::Vs => "Vs"@,
        Cond::Vc => "Vc"@,
        Cond::Hi => "Hi"@,
        Cond::Ls => "Ls"@,
        Cond::Ge => "Ge"@,
        Cond::Lt => "Lt"@,
        Cond::Gt => "Gt"@,
        Cond::Le => "Le"@,
    }
}

/// A condition's name as the listing spells it in a branch.
pub fn cond_title_str(c: Cond) -> (s: &'static str)
    ensures
        s@ == cond_title(c),
{
    match c {
        Cond::Eq => "Eq",
        Cond::Ne => "Ne",
        Cond::Hs => "Hs",
        Cond::Lo => "Lo",
        Cond::Mi => "Mi",
        Cond::Pl => "Pl",
        Cond::Vs => "Vs",
        Cond::Vc => "Vc",
        Cond::Hi => "Hi",
        Cond::Ls => "Ls",
        Cond::Ge => "Ge",
        Cond::Lt => "Lt",
        Cond::Gt => "Gt",
        Cond::Le => "Le",
    }
}

/// How the listing writes a register class.
pub open spec fn class_text(c: RegClass) -> Seq<char> {
    match c {
        RegClass::X => "X"@,
        RegClass::W => "W"@,
        RegClass::D => "D"@,
        RegClass::Q => "Q"@,
    }
}

fn class_str(c: RegClass) -> (s: &'static str)
    ensures
        s@ == class_text(c),
{
    match c {
        RegClass::X => "X",
        RegClass::W => "W",
        RegClass::D => "D",
        RegClass::Q => "Q",
    }
}

/// How the listing writes a truth value.
pub open spec fn bool_text(b: bool) -> Seq<char> {
    if b {
        "true"@
    } else {
        "false"@
    }
}

/// How the listing writes a register.
pub open spec fn reg_text(r: Reg) -> Seq<char> {
    "Reg { class: "@ + class_text(r.class) + ", num: "@ + dec_text(r.num as nat) + ", is_sp: "@ + bool_text(
        r.is_sp,
    ) + " }"@
}

/// Appends a register's listing text.
pub fn push_reg(s: &mut String, r: Reg)
    ensures
        final(s)@ == old(s)@ + reg_text(r),
{
    s.append("Reg { class: ");
    s.append(class_str(r.class));
    s.append(", num: ");
    push_dec(s, r.num as u64);
    s.append(", is_sp: ");
    s.append(if r.is_sp { "true" } else { "false" });
    s.append(" }");
    assert(s@ =~= old(s)@ + reg_text(r));
}

/// How the listing writes an addressing mode.
pub open spec fn addr_text(a: Addr) -> Seq<char> {
    match a {
        Addr::Offset(v) => "Offset("@ + int_text(v as int) + ")"@,
        Addr::PreIndex(v) => "PreIndex("@ + int_text(v as int) + ")"@,
        Addr::PostIndex(v) => "PostIndex("@ + int_text(v as int) + ")"@,
    }
}

/// How the listing writes one operand.
pub open spec fn operand_text(o: Operand) -> Seq<char> {
    match o {
        Operand::Reg(r) => "Reg("@ + reg_text(r) + ")"@,
        Operand::Imm(v) => "Imm("@ + int_text(v as int) + ")"@,
        Operand::ImmShift(v, s) => "ImmShift("@ + int_text(v as int) + ", "@ + dec_text(s as nat) + ")"@,
        Operand::RegShift(r, k, s) => "RegShift("@ + reg_text(r) + ", "@ + shift_text(k) + ", "@ + dec_text(
            s as nat,
        ) + ")"@,
        Operand::Mem(m) => "Mem(Mem { base: "@ + reg_text(m.base) + ", addr: "@ + addr_text(m.addr) + " })"@,
        Operand::VReg { num, arr } => "VReg { num: "@ + dec_text(num as nat) + ", arr: "@ + arr_text(arr) + " }"@,
        Operand::VElem { num, esize, index } => "VElem { num: "@ + dec_text(num as nat)
            + ", esize: D, index: "@ + dec_text(index as nat) + " }"@,
        Operand::Sym(c) => "Sym(\""@ + cond_name(c) + "\")"@,
    }
}

/// How the listing writes a shift.
pub open spec fn shift_text(k: Shift) -> Seq<char> {
    match k {
        Shift::Lsl => "Lsl"@,
        Shift::Lsr => "Lsr"@,
        Shift::Asr => "Asr"@,
    }
}

fn shift_str(k: Shift) -> (s: &'static str)
    ensures
        s@ == shift_text(k),
{
    match k {
        Shift::Lsl => "Lsl",
        Shift::Lsr => "Lsr",
        Shift::Asr => "Asr",
    }
}

/// How the listing writes an arrangement.
pub open spec fn arr_text(a: Arr) -> Seq<char> {
    match a {
        Arr::D2 => "D2"@,
        Arr::S4 => "S4"@,
    }
}

fn arr_str(a: Arr) -> (s: &'static str)
    ensures
        s@ == arr_text(a),
{
    match a {
        Arr::D2 => "D2",
        Arr::S4 => "S4",
    }
}

fn push_addr(s: &mut String, a: Addr)
    ensures
        final(s)@ == old(s)@ + addr_text(a),
{
    match a {
        Addr::Offset(v) => {
            s.append("Offset(");
            push_int(s, v);
        },
        Addr::PreIndex(v) => {
            s.append("PreIndex(");
            push_int(s, v);
        },
        Addr::PostIndex(v) => {
            s.append("PostIndex(");
            push_int(s, v);
        },
    }
    s.append(")");
    assert(s@ =~= old(s)@ + addr_text(a));
}

/// Appends an operand's listing text.
pub fn push_operand(s: &mut String, o: Operand)
    ensures
        final(s)@ == old(s)@ + operand_text(o),
{
    match o {
        Operand::Reg(r) => {
            s.append("Reg(");
            push_reg(s, r);
            s.append(")");
        },
        Operand::Imm(v) => {
            s.append("Imm(");
            push_int(s, v);
            s.append(")");
        },
        Operand::ImmShift(v, k) => {
            s.append("ImmShift(");
            push_int(s, v);
            s.append(", ");
            push_dec(s, k as u64);
            s.append(")");
        },
        Operand::RegShift(r, k, n) => {
            s.append("RegShift(");
            push_reg(s, r);
            s.append(", ");
            s.append(shift_str(k));
            s.append(", ");
            push_dec(s, n as u64);
            s.append(")");
        },
        Operand::Mem(m) => {
            s.append("Mem(Mem { base: ");
            push_reg(s, m.base);
            s.append(", addr: ");
            push_addr(s, m.addr);
            s.append(" })");
        },
        Operand::VReg { num, arr } => {
            s.append("VReg { num: ");
            push_dec(s, num as u64);
            s.append(", arr: ");
            s.append(arr_str(arr));
            s.append(" }");
        },
        Operand::VElem { num, esize, index } => {
            s.append("VElem { num: ");
            push_dec(s, num as u64);
            s.append(", esize: D, index: ");
            push_dec(s, index as u64);
            s.append(" }");
        },
        Operand::Sym(c) => {
            s.append("Sym(\"");
            s.append(cond_str(c));
            s.append("\")");
        },
    }
    assert(s@ =~= old(s)@ + operand_text(o));
}

/// How the listing writes the first `n` operands, separated by commas.
pub open spec fn operands_text(ops: Seq<Operand>) -> Seq<char>
    decreases ops.len(),
{
    if ops.len() == 0 {
        Seq::empty()
    } else if ops.len() == 1 {
        operand_text(ops[0])
    } else {
        operands_text(ops.drop_last()) + ", "@ + operand_text(ops.last())
    }
}

/// Appends the operand list in brackets.
pub fn push_operands(s: &mut String, ops: &[Operand])
    ensures
        final(s)@ == old(s)@ + "["@ + operands_text(ops@) + "]"@,
{
    s.append("[");
    let ghost start = s@;
    let mut i: usize = 0;
    while i < ops.len()
        invariant
            i <= ops@.len(),
            s@ == start + operands_text(ops@.take(i as int)),
        decreases ops@.len() - i,
    {
        if i > 0 {
            s.append(", ");
        }
        push_operand(s, ops[i]);
        proof {
            let t = ops@.take(i as int + 1);
            assert(t.drop_last() =~= ops@.take(i as int));
            assert(s@ =~= start + operands_text(t));
        }
        i += 1;
    }
    assert(ops@.take(ops@.len() as int) =~= ops@);
    s.append("]");
    assert(s@ =~= old(s)@ + "["@ + operands_text(ops@) + "]"@);
}

} // verus!
