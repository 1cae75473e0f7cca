//! The words of instructions, by their fields: which bits name the operation, and where the registers,
//! the constants and the conditions stand.
//!
//! A word is written as a sum: the operation's bits, and each field times its place.
use vstd::prelude::*;
#[allow(unused_imports)]
use crate::compiler::a64::{
    cond_code, cond_name, d_num, enc_access, enc_compare, enc_csel, enc_ddd, enc_fmov, enc_fp3, enc_ldst, enc_ldst_ur, enc_mask,
    enc_mov, enc_movk, enc_movz, enc_msub, enc_pair, enc_rri, enc_rrr, enc_shift, enc_strb, enc_two, enc_umov,
    enc_unscaled, enc_vvv, encodable, encoding, first_of, imm12_field, imm7_field, imm9_field, lemma_mnemonics, mask_field,
    mem_off, mnemonic_of, v_num, word_of, x_num, xsp_num, Addr, Arr, Cond, ElemSize, Mem, Mnemonic, Operand, Reg,
    RegClass, Shift,
};
#[allow(unused_imports)]
use crate::compiler::assembler::{
    base_word, final_word, image, image_words, insn_label, pool_word, pool_words, spec_d, spec_imm, spec_mem, spec_mem_post, spec_mem_pre, spec_q, spec_sp, spec_v2d, spec_v4s,
    spec_vd_lane, spec_w, spec_x, spec_xr, wrap, Code, Insn, Label,
};
#[allow(unused_imports)]
use crate::compiler::lower::{cond_holds, Flags};

verus! {

/// Whether an instruction is known, and has a word.
pub open spec fn has_word(name: Seq<char>, ops: Seq<Operand>, w: int) -> bool {
    encodable(name, ops) && word_of(name, ops) == w
}

// ── Sums of fields ──────────────────────────────────────────────────────

proof fn lemma_register_fields(base: u32, hi: u32, mid: u32, lo: u32, m: u32, a: u32, n: u32, d: u32)
    by (bit_vector)
    requires
        hi < 2048,
        mid < 64,
        lo < 32,
        m < 32,
        a < 32,
        n < 32,
        d < 32,
    ensures
        base == hi * 0x20_0000 + mid * 0x400 ==> base | (m << 16) | (n << 5) | d == base + m * 0x1_0000 + n * 32 + d,
        base == hi * 0x20_0000 + mid * 0x400 + lo ==> base | (m << 16) | (n << 5) == base + m * 0x1_0000 + n * 32,
        base == hi * 0x20_0000 + mid * 0x400 + lo * 32 ==> base | (m << 16) | d == base + m * 0x1_0000 + d,
        base == hi * 0x20_0000 + mid * 0x400 + lo * 0x1_0000 ==> base | (n << 5) | d == base + n * 32 + d,
        mid == 32 && base == hi * 0x20_0000 + mid * 0x400 ==> base | (m << 16) | (a << 10) | (n << 5) | d == base + m
            * 0x1_0000 + a * 0x400 + n * 32 + d,
{
}

proof fn lemma_constant_fields(base: u32, hi: u32, lo: u32, k: u32, s: u32, r: u32, n: u32, d: u32)
    by (bit_vector)
    requires
        hi < 1024,
        lo < 32,
        k < 4096,
        s < 64,
        r < 64,
        n < 32,
        d < 32,
    ensures
        base == hi * 0x40_0000 ==> base | (k << 10) | (n << 5) | d == base + k * 0x400 + n * 32 + d,
        hi % 2 == 0 && base == hi * 0x40_0000 ==> base | (0x40_0000 | (k << 10)) | (n << 5) | d == base + 0x40_0000 + k
            * 0x400 + n * 32 + d,
        base == hi * 0x40_0000 + lo ==> base | (k << 10) | (n << 5) == base + k * 0x400 + n * 32,
        hi % 2 == 0 && base == hi * 0x40_0000 + lo ==> base | (0x40_0000 | (k << 10)) | (n << 5) == base + 0x40_0000 + k
            * 0x400 + n * 32,
        base == hi * 0x40_0000 ==> base | (r << 16) | (s << 10) | (n << 5) | d == base + r * 0x1_0000 + s * 0x400 + n * 32
            + d,
        base == hi * 0x40_0000 + lo ==> r < 32 ==> base | (r << 16) | (s << 10) | (n << 5) == base + r * 0x1_0000 + s
            * 0x400 + n * 32,
        base == hi * 0x40_0000 + 0xFC00 ==> base | (s << 16) | (n << 5) | d == base + s * 0x1_0000 + n * 32 + d,
{
}

proof fn lemma_other_fields(base: u32, hi: u32, v: u32, hw: u32, k: u32, p: u32, u: u32, n: u32, d: u32, c: u32)
    by (bit_vector)
    requires
        hi < 2048,
        v < 0x1_0000,
        hw < 4,
        k < 512,
        p < 128,
        u < 32,
        n < 32,
        d < 32,
        c < 16,
    ensures
        base == hi * 0x20_0000 ==> base | (v << 5) | d == base + v * 32 + d,
        hi % 4 == 0 && base == hi * 0x20_0000 ==> base | (hw << 21) | (v << 5) | d == base + hw * 0x20_0000 + v * 32 + d,
        base == hi * 0x20_0000 ==> base | (k << 12) | (n << 5) | d == base + k * 0x1000 + n * 32 + d,
        hi % 4 == 0 && base == hi * 0x20_0000 ==> base | 0u32 | (p << 15) | (u << 10) | (n << 5) | d == base + p * 0x8000 + u
            * 0x400 + n * 32 + d,
        hi % 4 == 0 && base == hi * 0x20_0000 ==> base | 0x40_0000u32 | (p << 15) | (u << 10) | (n << 5) | d == base
            + 0x40_0000 + p * 0x8000 + u * 0x400 + n * 32 + d,
        base == hi * 0x20_0000 ==> base | (u << 16) | (c << 12) | (n << 5) | d == base + u * 0x1_0000 + c * 0x1000 + n * 32
            + d,
        c < 2 ==> 0x4E08_3C00u32 | (c << 20) | (n << 5) | d == 0x4E08_3C00 + c * 0x10_0000 + n * 32 + d,
{
}

// ── Conditions ──────────────────────────────────────────────────────────

/// What the processor reads from a condition field: the flag or the relation of flags that its upper
/// three bits name, or, where the lowest bit is set, the contrary.
pub open spec fn field_holds(code: int, f: Flags) -> bool {
    let named = if code / 2 == 0 {
        f.z
    } else if code / 2 == 1 {
        f.c
    } else if code / 2 == 2 {
        f.n
    } else if code / 2 == 3 {
        f.v
    } else if code / 2 == 4 {
        f.c && !f.z
    } else if code / 2 == 5 {
        f.n == f.v
    } else {
        f.n == f.v && !f.z
    };
    named == (code % 2 == 0)
}

/// The condition of a branch and of a selection stands in its field: what the processor reads there
/// holds of the flags exactly where the condition does.
pub proof fn law_condition_fields(c: Cond, f: Flags, l: Label, d: u8, n: u8, m: u8)
    requires
        d < 32,
        n < 32,
        m < 32,
    ensures
        base_word(Insn::BCond(c, l)) / 16 == 0x540_0000,
        field_holds(base_word(Insn::BCond(c, l)) as int % 16, f) <==> cond_holds(c, f),
        base_word(Insn::BCond(c, l)) % 16 < 14,
        has_word(
            "csel"@,
            seq![spec_x(d), spec_x(n), spec_x(m), Operand::Sym(c)],
            0x9A80_0000 + m * 0x1_0000 + (base_word(Insn::BCond(c, l)) % 16) * 0x1000 + n * 32 + d,
        ),
{
    lemma_mnemonics();
    reveal(encoding);
    let k = cond_code(c);
    assert(0x5400_0000u32 | k == 0x5400_0000 + k) by (bit_vector)
        requires
            k < 16,
    ;
    lemma_other_fields(0x9A80_0000, 0x4D4, 0, 0, 0, 0, m as u32, n as u32, d as u32, k);
}

/// The names of the conditions.
pub proof fn law_condition_names(c: Cond)
    ensures
        cond_name(c) == match c {
            Cond::Eq => "eq"@,
            Cond::Ne => "ne"@,
            Cond::Hs => "hs"@,
            Cond::Lo => "lo"@,
            Cond::Mi => "mi"@,
            Cond::Pl => "pl"@,
            Cond::Vs => "vs"@,
            Cond::Vc => "vc"@,
            Cond::Hi => "hi"@,
            Cond::Ls => "ls"@,
            Cond::Ge => "ge"@,
            Cond::Lt => "lt"@,
            Cond::Gt => "gt"@,
            Cond::Le => "le"@,
        },
{
}

/// The same of a finished branch, whatever its distance: the displacement leaves the condition's field
/// and the operation's bits as they are.
pub proof fn law_finished_branch_keeps_its_condition(c: Code, i: int, cond: Cond, l: Label, f: Flags)
    requires
        0 <= i < c.insns.len(),
        c.insns[i] == Insn::BCond(cond, l),
    ensures
        final_word(c, i) / 0x100_0000 == 0x54,
        final_word(c, i) % 32 < 14,
        field_holds(final_word(c, i) as int % 16, f) <==> cond_holds(cond, f),
{
    let k = cond_code(cond);
    let u = wrap(c.labels[l.0 as int]->0 - i);
    let w = (0x5400_0000u32 | k) | ((u & 0x7FFFF) << 5);
    assert(w / 0x100_0000 == 0x54 && w % 32 == k) by (bit_vector)
        requires
            k < 14,
            w == (0x5400_0000u32 | k) | ((u & 0x7FFFF) << 5),
    ;
}

/// The words of the other branches: their operation's bits, which tell whether the branch is taken at
/// zero or elsewhere, and the register or the bit of it that they test. The distance leaves all that as
/// it is.
pub proof fn law_branch_words(c: Code, i: int)
    requires
        0 <= i < c.insns.len(),
    ensures
        ({
            let w = final_word(c, i);
            match c.insns[i] {
                Insn::B(_) => w / 0x400_0000 == 5,
                Insn::Bl(_) => w / 0x400_0000 == 37,
                Insn::Cbz(r, _) => r.num < 32 ==> w % 32 == r.num && w / 0x100_0000 == if r.class is X {
                    0xB4int
                } else {
                    0x34int
                },
                Insn::Cbnz(r, _) => r.num < 32 ==> w % 32 == r.num && w / 0x100_0000 == if r.class is X {
                    0xB5int
                } else {
                    0x35int
                },
                Insn::Tbz(r, bit, _) => r.num < 32 && bit < 64 ==> w % 32 == r.num && (w / 0x8_0000) % 32 == bit % 32 && w
                    / 0x8000_0000 == bit / 32 && (w / 0x100_0000) % 128 == 0x36,
                Insn::Tbnz(r, bit, _) => r.num < 32 && bit < 64 ==> w % 32 == r.num && (w / 0x8_0000) % 32 == bit % 32 && w
                    / 0x8000_0000 == bit / 32 && (w / 0x100_0000) % 128 == 0x37,
                Insn::LdrLit(r, _) => r.num < 32 ==> w % 32 == r.num && w / 0x100_0000 == 0x58,
                Insn::Raw(v) => w == v,
                _ => true,
            }
        }),
{
    let l = insn_label(c.insns[i])->0;
    let u = wrap(c.labels[l.0 as int]->0 - i);
    match c.insns[i] {
        Insn::B(_) => {
            lemma_branch_bits(0, 0, 0, 0, u);
        },
        Insn::Cbz(r, _) => {
            let sf = if r.class is X {
                1u32
            } else {
                0u32
            };
            if r.num < 32 {
                lemma_branch_bits(r.num as u32, sf, 0, 0, u);
            }
        },
        Insn::Cbnz(r, _) => {
            let sf = if r.class is X {
                1u32
            } else {
                0u32
            };
            if r.num < 32 {
                lemma_branch_bits(r.num as u32, sf, 1, 0, u);
            }
        },
        Insn::Tbz(r, bit, _) => {
            if r.num < 32 && bit < 64 {
                lemma_bit_number(bit);
                lemma_branch_bits(r.num as u32, (bit >> 5) as u32, 0, (bit & 0x1F) as u32, u);
            }
        },
        Insn::Tbnz(r, bit, _) => {
            if r.num < 32 && bit < 64 {
                lemma_bit_number(bit);
                lemma_branch_bits(r.num as u32, (bit >> 5) as u32, 1, (bit & 0x1F) as u32, u);
            }
        },
        Insn::LdrLit(r, lit) => {
            let v = wrap(pool_word(c.insns.len()) + 2 * lit.0 - i);
            if r.num < 32 {
                lemma_branch_bits(r.num as u32, 0, 0, 0, v);
            }
        },
        _ => {},
    }
}

proof fn lemma_bit_number(bit: u8)
    by (bit_vector)
    requires
        bit < 64,
    ensures
        bit >> 5 == bit / 32,
        bit & 0x1F == bit % 32,
{
}

proof fn lemma_branch_bits(n: u32, a: u32, op: u32, b: u32, u: u32)
    by (bit_vector)
    requires
        n < 32,
        a <= 1,
        op <= 1,
        b < 32,
    ensures
        (0x1400_0000u32 | (u & 0x03FF_FFFF)) / 0x400_0000 == 5,
        (((a << 31) | 0x3400_0000 | (op << 24) | n) | ((u & 0x7FFFF) << 5)) % 32 == n,
        (((a << 31) | 0x3400_0000 | (op << 24) | n) | ((u & 0x7FFFF) << 5)) / 0x100_0000 == 0x80 * a + 0x34 + op,
        (((a << 31) | 0x3600_0000 | (op << 24) | (b << 19) | n) | ((u & 0x3FFF) << 5)) % 32 == n,
        ((((a << 31) | 0x3600_0000 | (op << 24) | (b << 19) | n) | ((u & 0x3FFF) << 5)) / 0x8_0000) % 32 == b,
        (((a << 31) | 0x3600_0000 | (op << 24) | (b << 19) | n) | ((u & 0x3FFF) << 5)) / 0x8000_0000 == a,
        ((((a << 31) | 0x3600_0000 | (op << 24) | (b << 19) | n) | ((u & 0x3FFF) << 5)) / 0x100_0000) % 128 == 0x36 + op,
        ((0x5800_0000u32 | n) | ((u & 0x7FFFF) << 5)) % 32 == n,
        ((0x5800_0000u32 | n) | ((u & 0x7FFFF) << 5)) / 0x100_0000 == 0x58,
{
}

/// The bytes of finished code: each instruction's word, the lowest byte first, from the start on; then
/// the constants, the lowest byte first too, each at its place.
pub proof fn law_image_bytes(c: Code)
    ensures
        forall|i: int|
            0 <= i < c.insns.len() ==> 4 * i + 4 <= image(c).len() && #[trigger] final_word(c, i) == image(c)[4 * i] + 256
                * image(c)[4 * i + 1] + 0x1_0000 * image(c)[4 * i + 2] + 0x100_0000 * image(c)[4 * i + 3],
        forall|k: int|
            0 <= k < c.pool.len() ==> ({
                let at = 4 * pool_word(c.insns.len()) + 8 * k;
                &&& at % 8 == 0
                &&& at + 8 <= image(c).len()
                &&& (#[trigger] c.pool[k]).0 == image(c)[at] + 256 * image(c)[at + 1] + 0x1_0000 * image(c)[at + 2]
                    + 0x100_0000 * image(c)[at + 3] + 0x1_0000_0000 * (image(c)[at + 4] + 256 * image(c)[at + 5] + 0x1_0000
                    * image(c)[at + 6] + 0x100_0000 * image(c)[at + 7])
            }),
{
    let words = image_words(c);
    let n = c.insns.len() as int;
    assert forall|i: int| 0 <= i < n implies 4 * i + 4 <= image(c).len() && #[trigger] final_word(c, i) == image(c)[4 * i]
        + 256 * image(c)[4 * i + 1] + 0x1_0000 * image(c)[4 * i + 2] + 0x100_0000 * image(c)[4 * i + 3] by {
        assert(words[i] == final_word(c, i));
        lemma_word_bytes(c, i);
    }
    assert forall|k: int| 0 <= k < c.pool.len() implies ({
        let at = 4 * pool_word(c.insns.len()) + 8 * k;
        &&& at % 8 == 0
        &&& at + 8 <= image(c).len()
        &&& (#[trigger] c.pool[k]).0 == image(c)[at] + 256 * image(c)[at + 1] + 0x1_0000 * image(c)[at + 2] + 0x100_0000
            * image(c)[at + 3] + 0x1_0000_0000 * (image(c)[at + 4] + 256 * image(c)[at + 5] + 0x1_0000 * image(c)[at + 6]
            + 0x100_0000 * image(c)[at + 7])
    }) by {
        let p = pool_word(c.insns.len()) as int;
        let v = c.pool[k].0;
        assert((2 * k) / 2 == k && (2 * k) % 2 == 0 && (2 * k + 1) / 2 == k && (2 * k + 1) % 2 == 1);
        assert(words[p + 2 * k] == pool_words(c.pool)[2 * k]);
        assert(words[p + 2 * k + 1] == pool_words(c.pool)[2 * k + 1]);
        lemma_word_bytes(c, p + 2 * k);
        lemma_word_bytes(c, p + 2 * k + 1);
        assert((v & 0xFFFF_FFFF) as u32 + 0x1_0000_0000 * ((v >> 32) as u32) == v) by (bit_vector);
    }
}

proof fn lemma_word_bytes(c: Code, i: int)
    requires
        0 <= i < image_words(c).len(),
    ensures
        4 * i + 4 <= image(c).len(),
        image_words(c)[i] == image(c)[4 * i] + 256 * image(c)[4 * i + 1] + 0x1_0000 * image(c)[4 * i + 2] + 0x100_0000
            * image(c)[4 * i + 3],
{
    let w = image_words(c)[i];
    assert((4 * i) / 4 == i && (4 * i) % 4 == 0 && (4 * i + 1) / 4 == i && (4 * i + 1) % 4 == 1 && (4 * i + 2) / 4 == i && (4
        * i + 2) % 4 == 2 && (4 * i + 3) / 4 == i && (4 * i + 3) % 4 == 3);
    assert((w & 0xFF) as u8 + 256 * (((w >> 8) & 0xFF) as u8) + 0x1_0000 * (((w >> 16) & 0xFF) as u8) + 0x100_0000 * (((w
        >> 24) & 0xFF) as u8) == w) by (bit_vector);
}

// ── Sums, differences and bits ──────────────────────────────────────────

/// The words of operations on three registers: bit 31 tells 64 bits, bit 30 a difference, bit 29 that
/// the flags are set. The first operand's register stands at bit 5, the second's at bit 16, the
/// destination's at bit 0.
pub proof fn law_sum_words(d: u8, n: u8, m: u8)
    requires
        d < 32,
        n < 32,
        m < 32,
    ensures
        ({
            let ops = seq![spec_x(d), spec_x(n), spec_x(m)];
            let sum = 0x8000_0000 + 0x0B00_0000 + m * 0x1_0000 + n * 32 + d;
            &&& has_word("add"@, ops, sum)
            &&& has_word("sub"@, ops, sum + 0x4000_0000)
            &&& has_word("adds"@, ops, sum + 0x2000_0000)
            &&& has_word("subs"@, ops, sum + 0x4000_0000 + 0x2000_0000)
        }),
        forall|x: u8|
            x < 32 ==> has_word("cmp"@, #[trigger] seq![spec_x(n), spec_x(x)], word_of(
                "subs"@,
                seq![spec_x(31), spec_x(n), spec_x(x)],
            ) as int),
        has_word("neg"@, seq![spec_x(d), spec_x(m)], word_of("sub"@, seq![spec_x(d), spec_x(31), spec_x(m)]) as int),
{
    lemma_mnemonics();
    reveal(encoding);
    let (d0, n0, m0) = (d as u32, n as u32, m as u32);
    lemma_register_fields(0x8B00_0000, 0x458, 0, 0, m0, 0, n0, d0);
    lemma_register_fields(0xCB00_0000, 0x658, 0, 0, m0, 0, n0, d0);
    lemma_register_fields(0xAB00_0000, 0x558, 0, 0, m0, 0, n0, d0);
    lemma_register_fields(0xEB00_0000, 0x758, 0, 0, m0, 0, n0, d0);
    lemma_register_fields(0xCB00_0000, 0x658, 0, 0, m0, 0, 31, d0);
    lemma_register_fields(0xCB00_03E0, 0x658, 0, 31, m0, 0, n0, d0);
    assert forall|x: u8| x < 32 implies has_word("cmp"@, #[trigger] seq![spec_x(n), spec_x(x)], word_of(
        "subs"@,
        seq![spec_x(31), spec_x(n), spec_x(x)],
    ) as int) by {
        lemma_register_fields(0xEB00_0000, 0x758, 0, 0, x as u32, 0, n0, 31);
        lemma_register_fields(0xEB00_001F, 0x758, 0, 31, x as u32, 0, n0, 31);
    }
}

/// The words of sums and differences with a constant of twelve bits, which may count in steps of 4096.
pub proof fn law_constant_sum_words(d: u8, n: u8, v: i64)
    requires
        d < 32,
        n < 31,
        0 <= v < 4096,
    ensures
        has_word("add"@, seq![spec_x(d), spec_x(n), spec_imm(v)], 0x9100_0000 + v * 0x400 + n * 32 + d),
        has_word("sub"@, seq![spec_x(d), spec_x(n), spec_imm(v)], 0x9100_0000 + 0x4000_0000 + v * 0x400 + n * 32 + d),
        v > 0 ==> has_word(
            "add"@,
            seq![spec_x(d), spec_x(n), spec_imm((v * 4096) as i64)],
            0x9100_0000 + 0x40_0000 + v * 0x400 + n * 32 + d,
        ),
        v > 0 ==> has_word(
            "sub"@,
            seq![spec_x(d), spec_x(n), spec_imm((v * 4096) as i64)],
            0x9100_0000 + 0x4000_0000 + 0x40_0000 + v * 0x400 + n * 32 + d,
        ),
        has_word("cmp"@, seq![spec_x(n), spec_imm(v)], 0x9100_0000 + 0x6000_0000 + v * 0x400 + n * 32 + 31),
        has_word("mov"@, seq![spec_x(n), spec_sp()], word_of("add"@, seq![spec_x(n), spec_sp(), spec_imm(0)]) as int),
        has_word("mov"@, seq![spec_sp(), spec_x(n)], word_of("add"@, seq![spec_sp(), spec_x(n), spec_imm(0)]) as int),
        has_word("add"@, seq![spec_sp(), spec_x(n), spec_imm(v)], 0x9100_0000 + v * 0x400 + n * 32 + 31),
        has_word("sub"@, seq![spec_sp(), spec_sp(), spec_imm(v)], 0xD100_0000 + v * 0x400 + 31 * 32 + 31),
{
    lemma_mnemonics();
    reveal(encoding);
    let (d0, n0, k) = (d as u32, n as u32, v as u32);
    lemma_constant_fields(0x9100_0000, 0x244, 0, k, 0, 0, n0, d0);
    lemma_constant_fields(0xD100_0000, 0x344, 0, k, 0, 0, n0, d0);
    lemma_constant_fields(0xF100_001F, 0x3C4, 31, k, 0, 0, n0, d0);
    lemma_constant_fields(0x9100_0000, 0x244, 0, k, 0, 0, n0, 31);
    lemma_constant_fields(0xD100_0000, 0x344, 0, k, 0, 0, 31, 31);
    lemma_constant_fields(0x9100_0000, 0x244, 0, 0, 0, 0, 31, n0);
    lemma_constant_fields(0x9100_0000, 0x244, 0, 0, 0, 0, n0, 31);
    lemma_register_fields(0x9100_0000, 0x488, 0, 0, 0, 0, 31, n0);
    lemma_register_fields(0x9100_0000, 0x488, 0, 0, 0, 0, n0, 31);
    assert((v * 4096) % 4096 == 0);
    assert((v * 4096) / 4096 == v);
    assert(0x40_0000u32 | (k << 10) == 0x40_0000u32 | (k << 10));
}

/// The words of bit operations: both bits, either, or exactly one of them. A move is the bits of its
/// source and none.
pub proof fn law_bit_words(d: u8, n: u8, m: u8)
    requires
        d < 32,
        n < 32,
        m < 32,
    ensures
        ({
            let ops = seq![spec_x(d), spec_x(n), spec_x(m)];
            let both = 0x8A00_0000 + m * 0x1_0000 + n * 32 + d;
            &&& has_word("and"@, ops, both)
            &&& has_word("orr"@, ops, both + 0x2000_0000)
            &&& has_word("eor"@, ops, both + 0x4000_0000)
        }),
        has_word("mov"@, seq![spec_x(d), spec_x(m)], word_of("orr"@, seq![spec_x(d), spec_x(31), spec_x(m)]) as int),
{
    lemma_mnemonics();
    reveal(encoding);
    let (d0, n0, m0) = (d as u32, n as u32, m as u32);
    lemma_register_fields(0x8A00_0000, 0x450, 0, 0, m0, 0, n0, d0);
    lemma_register_fields(0xAA00_0000, 0x550, 0, 0, m0, 0, n0, d0);
    lemma_register_fields(0xCA00_0000, 0x650, 0, 0, m0, 0, n0, d0);
    lemma_register_fields(0xAA00_0000, 0x550, 0, 0, m0, 0, 31, d0);
    lemma_register_fields(0xAA00_03E0, 0x550, 0, 31, m0, 0, n0, d0);
}

/// The two masks: the tag's bits, and all but those. A test is a conjunction of which only the flags
/// are kept.
pub proof fn law_mask_words(d: u8, n: u8)
    requires
        d < 32,
        n < 32,
    ensures
        has_word("and"@, seq![spec_x(d), spec_x(n), spec_imm(3)], 0x9240_0000 + 1 * 0x400 + n * 32 + d),
        has_word(
            "and"@,
            seq![spec_x(d), spec_x(n), spec_imm((-4) as i64)],
            0x9240_0000 + 62 * 0x1_0000 + 61 * 0x400 + n * 32 + d,
        ),
        has_word("tst"@, seq![spec_x(n), spec_imm(3)], 0x9240_0000 + 0x6000_0000 + 1 * 0x400 + n * 32 + 31),
        has_word(
            "tst"@,
            seq![spec_x(n), spec_imm((-4) as i64)],
            0x9240_0000 + 0x6000_0000 + 62 * 0x1_0000 + 61 * 0x400 + n * 32 + 31,
        ),
{
    lemma_mnemonics();
    reveal(encoding);
    let (d0, n0) = (d as u32, n as u32);
    assert(0x9200_0000u32 | 0x0040_0400 | (n0 << 5) | d0 == 0x9240_0000 + 0x400 + n0 * 32 + d0 && 0x9200_0000u32
        | 0x007E_F400 | (n0 << 5) | d0 == 0x9240_0000 + 62 * 0x1_0000 + 61 * 0x400 + n0 * 32 + d0 && 0xF200_001Fu32
        | 0x0040_0400 | (n0 << 5) == 0xF240_0000 + 0x400 + n0 * 32 + 31 && 0xF200_001Fu32 | 0x007E_F400 | (n0 << 5)
        == 0xF240_0000 + 62 * 0x1_0000 + 61 * 0x400 + n0 * 32 + 31) by (bit_vector)
        requires
            n0 < 32,
            d0 < 32,
    ;
}

// ── Products, quotients and shifts ──────────────────────────────────────

/// The words of products and quotients. A product adds nothing, which register 31 stands for; `msub`
/// takes the product from its last operand.
pub proof fn law_product_words(d: u8, n: u8, m: u8, a: u8)
    requires
        d < 32,
        n < 32,
        m < 32,
        a < 32,
    ensures
        ({
            let ops = seq![spec_x(d), spec_x(n), spec_x(m)];
            let at = m * 0x1_0000 + n * 32 + d;
            &&& has_word("mul"@, ops, 0x9B00_0000 + 31 * 0x400 + at)
            &&& has_word("smulh"@, ops, 0x9B40_0000 + 31 * 0x400 + at)
            &&& has_word("sdiv"@, ops, 0x9AC0_0000 + 3 * 0x400 + at)
            &&& has_word("msub"@, seq![spec_x(d), spec_x(n), spec_x(m), spec_x(a)], 0x9B00_8000 + a * 0x400 + at)
        }),
{
    lemma_mnemonics();
    reveal(encoding);
    let (d0, n0, m0, a0) = (d as u32, n as u32, m as u32, a as u32);
    lemma_register_fields(0x9B00_7C00, 0x4D8, 31, 0, m0, 0, n0, d0);
    lemma_register_fields(0x9B40_7C00, 0x4DA, 31, 0, m0, 0, n0, d0);
    lemma_register_fields(0x9AC0_0C00, 0x4D6, 3, 0, m0, 0, n0, d0);
    lemma_register_fields(0x9B00_8000, 0x4D8, 32, 0, m0, a0, n0, d0);
}

/// The words of shifts: by a register, and by a constant, which for a shift to the left is written as
/// what is left of the word and the turn that brings it there.
pub proof fn law_shift_words(d: u8, n: u8, m: u8, v: i64)
    requires
        d < 32,
        n < 32,
        m < 32,
        0 <= v < 64,
    ensures
        has_word("lslv"@, seq![spec_x(d), spec_x(n), spec_x(m)], 0x9AC0_0000 + 8 * 0x400 + m * 0x1_0000 + n * 32 + d),
        has_word("asrv"@, seq![spec_x(d), spec_x(n), spec_x(m)], 0x9AC0_0000 + 10 * 0x400 + m * 0x1_0000 + n * 32 + d),
        has_word("lsr"@, seq![spec_x(d), spec_x(n), spec_imm(v)], 0xD340_0000 + v * 0x1_0000 + 63 * 0x400 + n * 32 + d),
        has_word("asr"@, seq![spec_x(d), spec_x(n), spec_imm(v)], 0x9340_0000 + v * 0x1_0000 + 63 * 0x400 + n * 32 + d),
        has_word(
            "lsl"@,
            seq![spec_x(d), spec_x(n), spec_imm(v)],
            0xD340_0000 + ((64 - v) % 64) * 0x1_0000 + (63 - v) * 0x400 + n * 32 + d,
        ),
        m < 31 ==> has_word(
            "cmp"@,
            seq![spec_x(n), Operand::RegShift(spec_xr(m), Shift::Asr, v as u32)],
            0xEB00_0000 + 2 * 0x40_0000 + m * 0x1_0000 + v * 0x400 + n * 32 + 31,
        ),
{
    lemma_mnemonics();
    reveal(encoding);
    let (d0, n0, m0, s) = (d as u32, n as u32, m as u32, v as u32);
    lemma_register_fields(0x9AC0_2000, 0x4D6, 8, 0, m0, 0, n0, d0);
    lemma_register_fields(0x9AC0_2800, 0x4D6, 10, 0, m0, 0, n0, d0);
    lemma_constant_fields(0xD340_FC00, 0x34D, 0, 0, s, 0, n0, d0);
    lemma_constant_fields(0x9340_FC00, 0x24D, 0, 0, s, 0, n0, d0);
    lemma_constant_fields(0xD340_0000, 0x34D, 0, 0, (63 - s) as u32, ((64 - s) % 64) as u32, n0, d0);
    lemma_constant_fields(0xEB80_001F, 0x3AE, 31, 0, s, m0, n0, d0);
}

/// The words that put a constant into a register: sixteen bits, and sixteen bits more at a place.
pub proof fn law_move_words(d: u8, v: i64, q: u32)
    requires
        d < 32,
        0 <= v < 0x1_0000,
        q < 4,
    ensures
        has_word("movz"@, seq![spec_x(d), spec_imm(v)], 0xD280_0000 + v * 32 + d),
        has_word("mov"@, seq![spec_x(d), spec_imm(v)], 0xD280_0000 + v * 32 + d),
        has_word(
            "movk"@,
            seq![spec_x(d), Operand::ImmShift(v, (16 * q) as u32)],
            0xD280_0000 + 0x2000_0000 + q * 0x20_0000 + v * 32 + d,
        ),
{
    lemma_mnemonics();
    reveal(encoding);
    let (d0, k) = (d as u32, v as u32);
    lemma_other_fields(0xD280_0000, 0x694, k, 0, 0, 0, 0, 0, d0, 0);
    lemma_other_fields(0xF280_0000, 0x794, k, q, 0, 0, 0, 0, d0, 0);
}

// ── Loads and stores ────────────────────────────────────────────────────

/// The words of loads and stores: a load has bit 22. Where the displacement counts whole accesses it
/// stands so, in twelve bits; else it stands in nine bits, with its sign.
pub proof fn law_access_words(t: u8, n: u8, k: i64, off: i64)
    requires
        t < 32,
        n < 31,
        0 <= k < 4096,
        -256 <= off < 256,
    ensures
        has_word("ldr"@, seq![spec_x(t), spec_mem(n, (8 * k) as i64)], 0xF900_0000 + 0x40_0000 + k * 0x400 + n * 32 + t),
        has_word("str"@, seq![spec_x(t), spec_mem(n, (8 * k) as i64)], 0xF900_0000 + k * 0x400 + n * 32 + t),
        has_word("ldr"@, seq![spec_w(t), spec_mem(n, (4 * k) as i64)], 0xB900_0000 + 0x40_0000 + k * 0x400 + n * 32 + t),
        has_word("str"@, seq![spec_w(t), spec_mem(n, (4 * k) as i64)], 0xB900_0000 + k * 0x400 + n * 32 + t),
        has_word("ldr"@, seq![spec_d(t), spec_mem(n, (8 * k) as i64)], 0xFD00_0000 + 0x40_0000 + k * 0x400 + n * 32 + t),
        has_word("str"@, seq![spec_d(t), spec_mem(n, (8 * k) as i64)], 0xFD00_0000 + k * 0x400 + n * 32 + t),
        has_word("ldr"@, seq![spec_q(t), spec_mem(n, (16 * k) as i64)], 0x3D80_0000 + 0x40_0000 + k * 0x400 + n * 32 + t),
        has_word("str"@, seq![spec_q(t), spec_mem(n, (16 * k) as i64)], 0x3D80_0000 + k * 0x400 + n * 32 + t),
        has_word("strb"@, seq![spec_x(t), spec_mem(n, k)], 0x3900_0000 + k * 0x400 + n * 32 + t),
        ({
            let f = if off < 0 {
                off + 512
            } else {
                off as int
            };
            let at = f * 0x1000 + n * 32 + t;
            &&& has_word("ldur"@, seq![spec_x(t), spec_mem(n, off)], 0xF800_0000 + 0x40_0000 + at)
            &&& has_word("stur"@, seq![spec_x(t), spec_mem(n, off)], 0xF800_0000 + at)
            &&& has_word("ldurb"@, seq![spec_x(t), spec_mem(n, off)], 0x3800_0000 + 0x40_0000 + at)
            &&& has_word("sturb"@, seq![spec_x(t), spec_mem(n, off)], 0x3800_0000 + at)
            &&& off < 0 || off % 8 != 0 ==> {
                &&& has_word("ldr"@, seq![spec_x(t), spec_mem(n, off)], 0xF800_0000 + 0x40_0000 + at)
                &&& has_word("str"@, seq![spec_x(t), spec_mem(n, off)], 0xF800_0000 + at)
                &&& has_word("ldr"@, seq![spec_d(t), spec_mem(n, off)], 0xFC00_0000 + 0x40_0000 + at)
                &&& has_word("str"@, seq![spec_d(t), spec_mem(n, off)], 0xFC00_0000 + at)
            }
            &&& off < 0 || off % 4 != 0 ==> {
                &&& has_word("ldr"@, seq![spec_w(t), spec_mem(n, off)], 0xB800_0000 + 0x40_0000 + at)
                &&& has_word("str"@, seq![spec_w(t), spec_mem(n, off)], 0xB800_0000 + at)
            }
            &&& off < 0 || off % 16 != 0 ==> {
                &&& has_word("ldr"@, seq![spec_q(t), spec_mem(n, off)], 0x3C80_0000 + 0x40_0000 + at)
                &&& has_word("str"@, seq![spec_q(t), spec_mem(n, off)], 0x3C80_0000 + at)
            }
            &&& off < 0 ==> has_word("strb"@, seq![spec_x(t), spec_mem(n, off)], 0x3800_0000 + at)
        }),
{
    lemma_mnemonics();
    reveal(encoding);
    let (t0, n0, k0) = (t as u32, n as u32, k as u32);
    lemma_access_words(t0, n0, k0);
    let f = (if off < 0 {
        off + 512
    } else {
        off as int
    }) as u32;
    lemma_near_words(t0, n0, f);
}

proof fn lemma_access_words(t: u32, n: u32, k: u32)
    requires
        t < 32,
        n < 32,
        k < 4096,
    ensures
        ({
            let at = k * 0x400 + n * 32 + t;
            &&& 0xF940_0000u32 | (k << 10) | (n << 5) | t == 0xF940_0000 + at
            &&& 0xF900_0000u32 | (k << 10) | (n << 5) | t == 0xF900_0000 + at
            &&& 0xB940_0000u32 | (k << 10) | (n << 5) | t == 0xB940_0000 + at
            &&& 0xB900_0000u32 | (k << 10) | (n << 5) | t == 0xB900_0000 + at
            &&& 0xFD40_0000u32 | (k << 10) | (n << 5) | t == 0xFD40_0000 + at
            &&& 0xFD00_0000u32 | (k << 10) | (n << 5) | t == 0xFD00_0000 + at
            &&& 0x3DC0_0000u32 | (k << 10) | (n << 5) | t == 0x3DC0_0000 + at
            &&& 0x3D80_0000u32 | (k << 10) | (n << 5) | t == 0x3D80_0000 + at
            &&& 0x3900_0000u32 | (k << 10) | (n << 5) | t == 0x3900_0000 + at
        }),
{
    lemma_constant_fields(0xF940_0000, 0x3E5, 0, k, 0, 0, n, t);
    lemma_constant_fields(0xF900_0000, 0x3E4, 0, k, 0, 0, n, t);
    lemma_constant_fields(0xB940_0000, 0x2E5, 0, k, 0, 0, n, t);
    lemma_constant_fields(0xB900_0000, 0x2E4, 0, k, 0, 0, n, t);
    lemma_constant_fields(0xFD40_0000, 0x3F5, 0, k, 0, 0, n, t);
    lemma_constant_fields(0xFD00_0000, 0x3F4, 0, k, 0, 0, n, t);
    lemma_constant_fields(0x3DC0_0000, 0xF7, 0, k, 0, 0, n, t);
    lemma_constant_fields(0x3D80_0000, 0xF6, 0, k, 0, 0, n, t);
    lemma_constant_fields(0x3900_0000, 0xE4, 0, k, 0, 0, n, t);
}

proof fn lemma_near_words(t: u32, n: u32, k: u32)
    requires
        t < 32,
        n < 32,
        k < 512,
    ensures
        ({
            let at = k * 0x1000 + n * 32 + t;
            &&& 0xF840_0000u32 | (k << 12) | (n << 5) | t == 0xF840_0000 + at
            &&& 0xF800_0000u32 | (k << 12) | (n << 5) | t == 0xF800_0000 + at
            &&& 0xB840_0000u32 | (k << 12) | (n << 5) | t == 0xB840_0000 + at
            &&& 0xB800_0000u32 | (k << 12) | (n << 5) | t == 0xB800_0000 + at
            &&& 0xFC40_0000u32 | (k << 12) | (n << 5) | t == 0xFC40_0000 + at
            &&& 0xFC00_0000u32 | (k << 12) | (n << 5) | t == 0xFC00_0000 + at
            &&& 0x3CC0_0000u32 | (k << 12) | (n << 5) | t == 0x3CC0_0000 + at
            &&& 0x3C80_0000u32 | (k << 12) | (n << 5) | t == 0x3C80_0000 + at
            &&& 0x3840_0000u32 | (k << 12) | (n << 5) | t == 0x3840_0000 + at
            &&& 0x3800_0000u32 | (k << 12) | (n << 5) | t == 0x3800_0000 + at
        }),
{
    lemma_other_fields(0xF840_0000, 0x7C2, 0, 0, k, 0, 0, n, t, 0);
    lemma_other_fields(0xF800_0000, 0x7C0, 0, 0, k, 0, 0, n, t, 0);
    lemma_other_fields(0xB840_0000, 0x5C2, 0, 0, k, 0, 0, n, t, 0);
    lemma_other_fields(0xB800_0000, 0x5C0, 0, 0, k, 0, 0, n, t, 0);
    lemma_other_fields(0xFC40_0000, 0x7E2, 0, 0, k, 0, 0, n, t, 0);
    lemma_other_fields(0xFC00_0000, 0x7E0, 0, 0, k, 0, 0, n, t, 0);
    lemma_other_fields(0x3CC0_0000, 0x1E6, 0, 0, k, 0, 0, n, t, 0);
    lemma_other_fields(0x3C80_0000, 0x1E4, 0, 0, k, 0, 0, n, t, 0);
    lemma_other_fields(0x3840_0000, 0x1C2, 0, 0, k, 0, 0, n, t, 0);
    lemma_other_fields(0x3800_0000, 0x1C0, 0, 0, k, 0, 0, n, t, 0);
}

/// The words of pairs: the displacement counts words of eight bytes, in seven bits with their sign. The
/// base is changed before the access, after it, or not at all.
pub proof fn law_pair_words(t: u8, u: u8, n: u8, k: i64)
    requires
        t < 32,
        u < 32,
        n < 31,
        -64 <= k < 64,
    ensures
        ({
            let f = if k < 0 {
                k + 128
            } else {
                k as int
            };
            let off = (8 * k) as i64;
            let at = f * 0x8000 + u * 0x400 + n * 32 + t;
            &&& has_word("stp"@, seq![spec_x(t), spec_x(u), spec_mem(n, off)], 0xA800_0000 + 2 * 0x80_0000 + at)
            &&& has_word("stp"@, seq![spec_x(t), spec_x(u), spec_mem_pre(n, off)], 0xA800_0000 + 3 * 0x80_0000 + at)
            &&& has_word("stp"@, seq![spec_x(t), spec_x(u), spec_mem_post(n, off)], 0xA800_0000 + 1 * 0x80_0000 + at)
            &&& has_word("ldp"@, seq![spec_x(t), spec_x(u), spec_mem(n, off)], 0xA840_0000 + 2 * 0x80_0000 + at)
            &&& has_word("ldp"@, seq![spec_x(t), spec_x(u), spec_mem_pre(n, off)], 0xA840_0000 + 3 * 0x80_0000 + at)
            &&& has_word("ldp"@, seq![spec_x(t), spec_x(u), spec_mem_post(n, off)], 0xA840_0000 + 1 * 0x80_0000 + at)
        }),
{
    lemma_mnemonics();
    reveal(encoding);
    let (t0, u0, n0) = (t as u32, u as u32, n as u32);
    let f = (if k < 0 {
        k + 128
    } else {
        k as int
    }) as u32;
    assert(imm7_field((8 * k) as i64) == Some(f << 15));
    lemma_other_fields(0xA900_0000, 0x548, 0, 0, 0, f, u0, n0, t0, 0);
    lemma_other_fields(0xA980_0000, 0x54C, 0, 0, 0, f, u0, n0, t0, 0);
    lemma_other_fields(0xA880_0000, 0x544, 0, 0, 0, f, u0, n0, t0, 0);
}

// ── Branches to registers ───────────────────────────────────────────────

/// The words of jumps to an address in a register: a call sets the link, a return goes by register 30.
pub proof fn law_jump_words(n: u8)
    requires
        n < 32,
    ensures
        has_word("br"@, seq![spec_x(n)], 0xD61F_0000 + n * 32),
        has_word("blr"@, seq![spec_x(n)], 0xD61F_0000 + 0x20_0000 + n * 32),
        has_word("ret"@, Seq::empty(), 0xD61F_0000int + 0x40_0000 + 30 * 32),
        has_word("nop"@, Seq::empty(), 0xD503_201F),
{
    lemma_mnemonics();
    reveal(encoding);
    lemma_register_fields(0xD61F_0000, 0x6B0, 0, 31, 0, 0, n as u32, 0);
    lemma_register_fields(0xD63F_0000, 0x6B1, 0, 31, 0, 0, n as u32, 0);
}

// ── Floats and vectors ──────────────────────────────────────────────────

/// The words of floating-point arithmetic: on doubles, on two doubles at once, and on four singles at
/// once.
pub proof fn law_float_words(d: u8, n: u8, m: u8)
    requires
        d < 32,
        n < 32,
        m < 32,
    ensures
        ({
            let one = seq![spec_d(d), spec_d(n), spec_d(m)];
            let two = seq![spec_v2d(d), spec_v2d(n), spec_v2d(m)];
            let four = seq![spec_v4s(d), spec_v4s(n), spec_v4s(m)];
            let at = m * 0x1_0000 + n * 32 + d;
            &&& has_word("fmul"@, one, 0x1E60_0000 + 2 * 0x400 + at)
            &&& has_word("fdiv"@, one, 0x1E60_0000 + 6 * 0x400 + at)
            &&& has_word("fadd"@, one, 0x1E60_0000 + 10 * 0x400 + at)
            &&& has_word("fsub"@, one, 0x1E60_0000 + 14 * 0x400 + at)
            &&& has_word("fadd"@, two, 0x4E60_D400 + at)
            &&& has_word("fsub"@, two, 0x4E60_D400 + 0x80_0000 + at)
            &&& has_word("fmul"@, two, 0x6E60_DC00 + at)
            &&& has_word("fdiv"@, two, 0x6E60_FC00 + at)
            &&& has_word("fadd"@, four, 0x4E20_D400 + at)
            &&& has_word("fsub"@, four, 0x4E20_D400 + 0x80_0000 + at)
            &&& has_word("fmul"@, four, 0x6E20_DC00 + at)
            &&& has_word("fdiv"@, four, 0x6E20_FC00 + at)
            &&& has_word("add"@, four, 0x4EA0_8400 + at)
            &&& has_word("sub"@, four, 0x4EA0_8400 + 0x2000_0000 + at)
            &&& has_word("mul"@, four, 0x4EA0_9C00 + at)
            &&& has_word("fcmp"@, seq![spec_d(n), spec_d(m)], 0x1E60_2000 + m * 0x1_0000 + n * 32)
            &&& has_word("fmov"@, seq![spec_d(d), spec_d(n)], 0x1E60_4000 + n * 32 + d)
            &&& has_word("fmov"@, seq![spec_x(d), spec_d(n)], 0x9E66_0000 + n * 32 + d)
            &&& has_word("fmov"@, seq![spec_d(d), spec_x(n)], 0x9E66_0000 + 0x1_0000 + n * 32 + d)
        }),
{
    lemma_mnemonics();
    reveal(encoding);
    lemma_float_words(d as u32, n as u32, m as u32);
}

proof fn lemma_float_words(d: u32, n: u32, m: u32)
    requires
        d < 32,
        n < 32,
        m < 32,
    ensures
        ({
            let at = m * 0x1_0000 + n * 32 + d;
            &&& 0x1E60_2800u32 | (m << 16) | (n << 5) | d == 0x1E60_2800 + at
            &&& 0x1E60_3800u32 | (m << 16) | (n << 5) | d == 0x1E60_3800 + at
            &&& 0x1E60_0800u32 | (m << 16) | (n << 5) | d == 0x1E60_0800 + at
            &&& 0x1E60_1800u32 | (m << 16) | (n << 5) | d == 0x1E60_1800 + at
            &&& 0x4E60_D400u32 | (m << 16) | (n << 5) | d == 0x4E60_D400 + at
            &&& 0x4EE0_D400u32 | (m << 16) | (n << 5) | d == 0x4EE0_D400 + at
            &&& 0x6E60_DC00u32 | (m << 16) | (n << 5) | d == 0x6E60_DC00 + at
            &&& 0x6E60_FC00u32 | (m << 16) | (n << 5) | d == 0x6E60_FC00 + at
            &&& 0x4E20_D400u32 | (m << 16) | (n << 5) | d == 0x4E20_D400 + at
            &&& 0x4EA0_D400u32 | (m << 16) | (n << 5) | d == 0x4EA0_D400 + at
            &&& 0x6E20_DC00u32 | (m << 16) | (n << 5) | d == 0x6E20_DC00 + at
            &&& 0x6E20_FC00u32 | (m << 16) | (n << 5) | d == 0x6E20_FC00 + at
            &&& 0x4EA0_8400u32 | (m << 16) | (n << 5) | d == 0x4EA0_8400 + at
            &&& 0x6EA0_8400u32 | (m << 16) | (n << 5) | d == 0x6EA0_8400 + at
            &&& 0x4EA0_9C00u32 | (m << 16) | (n << 5) | d == 0x4EA0_9C00 + at
            &&& 0x1E60_2000u32 | (m << 16) | (n << 5) == 0x1E60_2000 + m * 0x1_0000 + n * 32
            &&& 0x1E60_4000u32 | (n << 5) | d == 0x1E60_4000 + n * 32 + d
            &&& 0x9E66_0000u32 | (n << 5) | d == 0x9E66_0000 + n * 32 + d
            &&& 0x9E67_0000u32 | (n << 5) | d == 0x9E67_0000 + n * 32 + d
        }),
{
    lemma_register_fields(0x1E60_2800, 0xF3, 10, 0, m, 0, n, d);
    lemma_register_fields(0x1E60_3800, 0xF3, 14, 0, m, 0, n, d);
    lemma_register_fields(0x1E60_0800, 0xF3, 2, 0, m, 0, n, d);
    lemma_register_fields(0x1E60_1800, 0xF3, 6, 0, m, 0, n, d);
    lemma_register_fields(0x4E60_D400, 0x273, 53, 0, m, 0, n, d);
    lemma_register_fields(0x4EE0_D400, 0x277, 53, 0, m, 0, n, d);
    lemma_register_fields(0x6E60_DC00, 0x373, 55, 0, m, 0, n, d);
    lemma_register_fields(0x6E60_FC00, 0x373, 63, 0, m, 0, n, d);
    lemma_register_fields(0x4E20_D400, 0x271, 53, 0, m, 0, n, d);
    lemma_register_fields(0x4EA0_D400, 0x275, 53, 0, m, 0, n, d);
    lemma_register_fields(0x6E20_DC00, 0x371, 55, 0, m, 0, n, d);
    lemma_register_fields(0x6E20_FC00, 0x371, 63, 0, m, 0, n, d);
    lemma_register_fields(0x4EA0_8400, 0x275, 33, 0, m, 0, n, d);
    lemma_register_fields(0x6EA0_8400, 0x375, 33, 0, m, 0, n, d);
    lemma_register_fields(0x4EA0_9C00, 0x275, 39, 0, m, 0, n, d);
    lemma_register_fields(0x1E60_2000, 0xF3, 8, 0, m, 0, n, d);
    lemma_register_fields(0x1E60_4000, 0xF3, 16, 0, m, 0, n, d);
    lemma_register_fields(0x9E66_0000, 0x4F3, 0, 6, m, 0, n, d);
    lemma_register_fields(0x9E67_0000, 0x4F3, 0, 7, m, 0, n, d);
}

/// The word that takes one of a vector's two halves: bit 20 tells which.
pub proof fn law_lane_words(d: u8, n: u8, half: u8)
    requires
        d < 32,
        n < 32,
        half < 2,
    ensures
        has_word(
            "umov"@,
            seq![spec_x(d), spec_vd_lane(n, half)],
            0x4E00_0000 + 0x8_0000 + half * 0x10_0000 + 0x3C00 + n * 32 + d,
        ),
{
    lemma_mnemonics();
    reveal(encoding);
    lemma_other_fields(0, 0, 0, 0, 0, 0, 0, n as u32, d as u32, half as u32);
}

} // verus!
