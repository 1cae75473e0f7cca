//! The AArch64 assembler.
//!
//! Plain instructions go through the encoder. Branches and literal loads are written with
//! displacement zero and resolved when the blob is finished, whether their target was bound
//! before or after them. The literal pool stands at the end, so that rewriting a pool word never
//! touches an instruction.
use vstd::prelude::*;
use crate::compiler::a64::{
    cond_bits, cond_title_str, encode, mnemonic, push_operands, push_reg, Cond, Operand, Reg, RegClass,
};
#[allow(unused_imports)]
use crate::compiler::a64::lemma_mnemonics;
#[allow(unused_imports)]
use crate::compiler::assembler::{
    base_word, branch_field, cbz_word, final_word, finishable, image_words, insn_label, insn_text, le_bytes,
    line_text, pool_index, pool_relocs, pool_word, pool_words, reloc_text, site_relocs, lemma_wrap_plus,
    lemma_wrap_sub, spec_x, tbz_word, word_offset, wrap, Code, Insn,
};
use crate::compiler::assembler::{x, xr, Assembler, CodeBlob, Label, LiteralId, Reloc, RelocKind};
use crate::text::{push_dec, push_hex};
#[allow(unused_imports)]
use crate::text::hex_text;

verus! {

broadcast use crate::compiler::a64::group_encoding;

/// Which bit field a branch displacement occupies.
#[derive(Clone, Copy, Debug, PartialEq, Eq, Structural)]
pub enum BranchKind {
    B26,
    B19,
    B14,
}

/// What finishing still has to put into a word.
#[derive(Clone, Copy, Debug, PartialEq, Eq, Structural)]
enum Fixup {
    Plain,
    Branch(Label, BranchKind),
    Literal(LiteralId),
}

/// A growable code buffer for AArch64.
pub struct JasmAssembler {
    words: Vec<u32>,
    fixups: Vec<Fixup>,
    labels: Vec<Option<usize>>,
    literals: Vec<(u64, Option<RelocKind>)>,
    relocs: Vec<Reloc>,
    listing: Vec<String>,
    finished: bool,
    insns: Ghost<Seq<Insn>>,
}

spec fn fixup_of(i: Insn) -> Fixup {
    match i {
        Insn::B(l) => Fixup::Branch(l, BranchKind::B26),
        Insn::BCond(_, l) => Fixup::Branch(l, BranchKind::B19),
        Insn::Cbz(_, l) => Fixup::Branch(l, BranchKind::B19),
        Insn::Cbnz(_, l) => Fixup::Branch(l, BranchKind::B19),
        Insn::Tbz(_, _, l) => Fixup::Branch(l, BranchKind::B14),
        Insn::Tbnz(_, _, l) => Fixup::Branch(l, BranchKind::B14),
        Insn::LdrLit(_, lit) => Fixup::Literal(lit),
        _ => Fixup::Plain,
    }
}

spec fn label_view(l: Option<usize>) -> Option<nat> {
    match l {
        Some(p) => Some(p as nat),
        None => None,
    }
}

impl JasmAssembler {
    /// An empty buffer.
    pub fn new() -> (r: Self)
        ensures
            r.ok(),
            r.code() == Code::empty(),
    {
        let r = JasmAssembler {
            words: Vec::new(),
            fixups: Vec::new(),
            labels: Vec::new(),
            literals: Vec::new(),
            relocs: Vec::new(),
            listing: Vec::new(),
            finished: false,
            insns: Ghost(Seq::empty()),
        };
        assert(r.code().labels =~= Seq::empty());
        assert(r.code().pool =~= Seq::empty());
        r
    }

    /// A word as it stands before finishing.
    pub fn word(&self, i: usize) -> (w: u32)
        requires
            self.ok(),
            i < self.code().insns.len(),
        ensures
            w == base_word(self.code().insns[i as int]),
    {
        self.words[i]
    }

    /// Appends a word with its fixup and its listing text.
    fn push_word(&mut self, w: u32, fixup: Fixup, text: &str, insn: Ghost<Insn>)
        requires
            old(self).ok(),
            w == base_word(insn@),
            fixup == fixup_of(insn@),
            text@ == insn_text(insn@),
            insn@ !is Bl,
        ensures
            final(self).ok(),
            final(self).code() == old(self).code().with(insn@),
    {
        let off: u32 = self.offset();
        self.push_listing(off, w, text);
        self.words.push(w);
        self.fixups.push(fixup);
        proof {
            let old_insns = self.insns@;
            self.insns@ = old_insns.push(insn@);
            assert(self.insns@.drop_last() =~= old_insns);
            assert(self.listing@[old_insns.len() as int]@ =~= line_text(old_insns.len(), insn@));
            assert(self.code().labels =~= old(self).code().labels);
        }
    }

    /// Appends one listing line.
    fn push_listing(&mut self, offset: u32, word: u32, text: &str)
        ensures
            final(self).listing@.len() == old(self).listing@.len() + 1,
            forall|i: int|
                0 <= i < old(self).listing@.len() ==> #[trigger] final(self).listing@[i] == old(self).listing@[i],
            final(self).listing@.last()@ == hex_text(offset as nat, 6) + "  "@ + hex_text(word as nat, 8) + "  "@
                + text@,
            *final(self) == (JasmAssembler { listing: final(self).listing, ..*old(self) }),
    {
        let mut line = String::new();
        push_hex(&mut line, offset as u64, 6);
        line.append("  ");
        push_hex(&mut line, word as u64, 8);
        line.append("  ");
        line.append(text);
        assert(line@ =~= hex_text(offset as nat, 6) + "  "@ + hex_text(word as nat, 8) + "  "@ + text@);
        self.listing.push(line);
    }

    /// Emits a branch with displacement zero and queues its fixup.
    fn queue_branch(&mut self, base: u32, label: Label, kind: BranchKind, text: &str, insn: Ghost<Insn>)
        requires
            old(self).ok(),
            base == base_word(insn@),
            fixup_of(insn@) == Fixup::Branch(label, kind),
            text@ == insn_text(insn@),
        ensures
            final(self).ok(),
            final(self).code() == old(self).code().with(insn@),
    {
        self.push_word(base, Fixup::Branch(label, kind), text, insn);
    }
}

impl Default for JasmAssembler {
    fn default() -> (r: Self)
        ensures
            r.ok(),
            r.code() == Code::empty(),
    {
        Self::new()
    }
}

/// The word of a compare-and-branch with displacement zero.
pub fn cbz_base(r: Reg, nz: bool) -> (w: u32)
    requires
        r.class is X || r.class is W,
    ensures
        w == cbz_word(r, nz),
{
    let sf: u32 = match r.class {
        RegClass::X => 1u32,
        _ => 0u32,
    };
    let op: u32 = if nz {
        1
    } else {
        0
    };
    (sf << 31) | 0x3400_0000 | (op << 24) | (r.num as u32)
}

/// The word of a test-bit-and-branch with displacement zero.
pub fn tbz_base(r: Reg, bit: u8, nz: bool) -> (w: u32)
    requires
        bit < 64,
    ensures
        w == tbz_word(r, bit, nz),
{
    let b5: u32 = (bit >> 5) as u32;
    let b40: u32 = (bit & 0x1F) as u32;
    let op: u32 = if nz {
        1
    } else {
        0
    };
    (b5 << 31) | 0x3600_0000 | (op << 24) | (b40 << 19) | (r.num as u32)
}

fn reloc_str(k: RelocKind) -> (s: &'static str)
    ensures
        s@ == reloc_text(k),
{
    match k {
        RelocKind::Oop => "Oop",
        RelocKind::KeyKlassOop => "KeyKlassOop",
        RelocKind::InlineCache => "InlineCache",
        RelocKind::RuntimeAddr => "RuntimeAddr",
        RelocKind::InternalWord => "InternalWord",
    }
}

/// `"<name> <reg> L<label>"`.
fn reg_branch_text(name: &str, r: Reg, l: Label) -> (s: String)
    ensures
        s@ == name@ + crate::compiler::a64::reg_text(r) + " L"@ + crate::text::dec_text(l.0 as nat),
{
    let mut s = String::new();
    s.append(name);
    push_reg(&mut s, r);
    s.append(" L");
    push_dec(&mut s, l.0 as u64);
    assert(s@ =~= name@ + crate::compiler::a64::reg_text(r) + " L"@ + crate::text::dec_text(l.0 as nat));
    s
}

/// `"<name> <reg> #<bit> L<label>"`.
fn bit_branch_text(name: &str, r: Reg, bit: u8, l: Label) -> (s: String)
    ensures
        s@ == name@ + crate::compiler::a64::reg_text(r) + " #"@ + crate::text::dec_text(bit as nat) + " L"@
            + crate::text::dec_text(l.0 as nat),
{
    let mut s = String::new();
    s.append(name);
    push_reg(&mut s, r);
    s.append(" #");
    push_dec(&mut s, bit as u64);
    s.append(" L");
    push_dec(&mut s, l.0 as u64);
    assert(s@ =~= name@ + crate::compiler::a64::reg_text(r) + " #"@ + crate::text::dec_text(bit as nat) + " L"@
        + crate::text::dec_text(l.0 as nat));
    s
}

/// The field that a displacement of `delta` words occupies.
fn field(kind: BranchKind, delta: u32) -> (f: u32)
    ensures
        forall|i: Insn|
            (fixup_of(i) matches Fixup::Branch(_, k) && k == kind) ==> f == #[trigger] branch_field(i, delta),
        kind is B19 ==> forall|i: Insn| i is LdrLit ==> f == #[trigger] branch_field(i, delta),
{
    match kind {
        BranchKind::B26 => delta & 0x03FF_FFFF,
        BranchKind::B19 => (delta & 0x7FFFF) << 5,
        BranchKind::B14 => (delta & 0x3FFF) << 5,
    }
}

/// The low 32 bits of a size.
fn low32(n: usize) -> (r: u32)
    ensures
        r == wrap(n as int),
{
    proof {
        let m = n as u64;
        assert((m as u32) == m % 0x1_0000_0000) by (bit_vector);
    }
    n as u32
}

/// A byte offset from a word index.
fn offset_of(n: u32, whole: Ghost<int>) -> (r: u32)
    requires
        n == wrap(whole@),
    ensures
        r == wrap(4 * whole@),
{
    proof {
        vstd::arithmetic::div_mod::lemma_mul_mod_noop_right(4, whole@, 0x1_0000_0000);
    }
    n.wrapping_mul(4)
}

/// Words as little-endian bytes.
fn to_bytes(words: &Vec<u32>) -> (bytes: Vec<u8>)
    ensures
        bytes@ == le_bytes(words@),
{
    let mut bytes: Vec<u8> = Vec::new();
    let mut i: usize = 0;
    while i < words.len()
        invariant
            i <= words@.len(),
            bytes@ =~= le_bytes(words@.take(i as int)),
        decreases words@.len() - i,
    {
        let w: u32 = words[i];
        bytes.push((w & 0xFF) as u8);
        bytes.push(((w >> 8) & 0xFF) as u8);
        bytes.push(((w >> 16) & 0xFF) as u8);
        bytes.push(((w >> 24) & 0xFF) as u8);
        proof {
            let t = words@.take(i as int + 1);
            assert forall|k: int| 0 <= k < 4 * t.len() implies bytes@[k] == #[trigger] le_bytes(t)[k] by {
                if k < 4 * i {
                    assert(words@.take(i as int)[k / 4] == t[k / 4]);
                    assert(bytes@[k] == le_bytes(words@.take(i as int))[k]);
                } else {
                    assert(k / 4 == i);
                    assert(t[k / 4] == w);
                }
            }
        }
        i += 1;
    }
    assert(words@.take(words@.len() as int) =~= words@);
    bytes
}

impl Assembler for JasmAssembler {
    closed spec fn code(&self) -> Code {
        Code {
            insns: self.insns@,
            labels: self.labels@.map(|i: int, l: Option<usize>| label_view(l)),
            pool: self.literals@,
            finished: self.finished,
        }
    }

    closed spec fn ok(&self) -> bool {
        let n = self.insns@.len();
        &&& self.words@.len() == n
        &&& self.fixups@.len() == n
        &&& self.listing@.len() == n
        &&& forall|i: int| 0 <= i < n ==> #[trigger] self.words@[i] == base_word(self.insns@[i])
        &&& forall|i: int| 0 <= i < n ==> #[trigger] self.fixups@[i] == fixup_of(self.insns@[i])
        &&& forall|i: int| 0 <= i < n ==> (#[trigger] self.listing@[i])@ == line_text(i as nat, self.insns@[i])
        &&& forall|l: int|
            0 <= l < self.labels@.len() ==> (#[trigger] self.labels@[l] matches Some(p) ==> p <= n)
        &&& self.relocs@ == site_relocs(self.insns@)
    }

    fn offset(&self) -> (r: u32) {
        let n: usize = self.words.len();
        offset_of(low32(n), Ghost(n as int))
    }

    fn emit(&mut self, mnemonic: &str, ops: &[Operand]) {
        let word: u32 = match crate::compiler::a64::mnemonic(mnemonic) {
            Some(m) => match encode(m, ops) {
                Some(w) => w,
                None => 0,
            },
            None => 0,
        };
        let mut text = String::new();
        text.append(mnemonic);
        text.append(" ");
        push_operands(&mut text, ops);
        let ghost insn = Insn::Op(mnemonic@, ops@);
        assert(text@ =~= insn_text(insn));
        self.push_word(word, Fixup::Plain, text.as_str(), Ghost(insn));
    }

    fn emit_u32(&mut self, word: u32) {
        self.push_word(word, Fixup::Plain, "<raw>", Ghost(Insn::Raw(word)));
    }

    fn new_label(&mut self) -> (l: Label) {
        let id: u32 = self.labels.len() as u32;
        self.labels.push(None);
        assert(self.code().labels =~= old(self).code().with_label().labels);
        Label(id)
    }

    fn bind(&mut self, l: Label) {
        let at: usize = self.words.len();
        self.labels.set(l.0 as usize, Some(at));
        assert(self.code().labels =~= old(self).code().bound(l).labels);
    }

    fn b(&mut self, l: Label) {
        let mut s = String::new();
        s.append("b L");
        push_dec(&mut s, l.0 as u64);
        assert(s@ =~= insn_text(Insn::B(l)));
        self.queue_branch(0x1400_0000, l, BranchKind::B26, s.as_str(), Ghost(Insn::B(l)));
    }

    fn b_cond(&mut self, c: Cond, l: Label) {
        let word: u32 = 0x5400_0000 | cond_bits(c);
        let mut s = String::new();
        s.append("b.");
        s.append(cond_title_str(c));
        s.append(" L");
        push_dec(&mut s, l.0 as u64);
        assert(s@ =~= insn_text(Insn::BCond(c, l)));
        self.queue_branch(word, l, BranchKind::B19, s.as_str(), Ghost(Insn::BCond(c, l)));
    }

    fn cbz(&mut self, r: Reg, l: Label) {
        let s: String = reg_branch_text("cbz ", r, l);
        let w: u32 = cbz_base(r, false);
        self.queue_branch(w, l, BranchKind::B19, s.as_str(), Ghost(Insn::Cbz(r, l)));
    }

    fn cbnz(&mut self, r: Reg, l: Label) {
        let s: String = reg_branch_text("cbnz ", r, l);
        let w: u32 = cbz_base(r, true);
        self.queue_branch(w, l, BranchKind::B19, s.as_str(), Ghost(Insn::Cbnz(r, l)));
    }

    fn tbz(&mut self, r: Reg, bit: u8, l: Label) {
        let s: String = bit_branch_text("tbz ", r, bit, l);
        let w: u32 = tbz_base(r, bit, false);
        self.queue_branch(w, l, BranchKind::B14, s.as_str(), Ghost(Insn::Tbz(r, bit, l)));
    }

    fn tbnz(&mut self, r: Reg, bit: u8, l: Label) {
        let s: String = bit_branch_text("tbnz ", r, bit, l);
        let w: u32 = tbz_base(r, bit, true);
        self.queue_branch(w, l, BranchKind::B14, s.as_str(), Ghost(Insn::Tbnz(r, bit, l)));
    }

    fn literal_u64(&mut self, v: u64, kind: Option<RelocKind>) -> (id: LiteralId) {
        let ghost e = (v, kind);
        let mut i: usize = 0;
        while i < self.literals.len()
            invariant
                i <= self.literals@.len(),
                pool_index(self.literals@.take(i as int), e) == i,
                e == (v, kind),
                old(self).ok(),
                *self == *old(self),
            decreases self.literals@.len() - i,
        {
            proof {
                assert(self.literals@.take(i as int + 1).drop_last() =~= self.literals@.take(i as int));
            }
            if self.literals[i].0 == v && self.literals[i].1 == kind {
                proof {
                    lemma_pool_index_prefix(self.literals@, e, i as nat + 1);
                }
                return LiteralId(i as u32);
            }
            i += 1;
        }
        proof {
            assert(self.literals@.take(i as int) =~= self.literals@);
        }
        let id: u32 = self.literals.len() as u32;
        self.literals.push((v, kind));
        LiteralId(id)
    }

    fn ldr_literal(&mut self, dst: Reg, lit: LiteralId) {
        let mut s = String::new();
        s.append("ldr ");
        push_reg(&mut s, dst);
        s.append(", =lit");
        push_dec(&mut s, lit.0 as u64);
        assert(s@ =~= insn_text(Insn::LdrLit(dst, lit)));
        let w: u32 = 0x5800_0000 | (dst.num as u32);
        self.push_word(w, Fixup::Literal(lit), s.as_str(), Ghost(Insn::LdrLit(dst, lit)));
    }

    fn bl_patchable(&mut self, kind: RelocKind) -> (off: u32) {
        let off: u32 = self.offset();
        let mut s = String::new();
        s.append("bl . ; ");
        s.append(reloc_str(kind));
        s.append(" reloc");
        let ghost insn = Insn::Bl(kind);
        assert(s@ =~= insn_text(insn));
        self.push_listing(off, 0x9400_0000, s.as_str());
        self.words.push(0x9400_0000);
        self.fixups.push(Fixup::Plain);
        self.relocs.push(Reloc { offset: off, kind });
        proof {
            let old_insns = self.insns@;
            self.insns@ = old_insns.push(insn);
            assert(self.insns@.drop_last() =~= old_insns);
            assert(self.listing@[old_insns.len() as int]@ =~= line_text(old_insns.len(), insn));
            assert(self.code().labels =~= old(self).code().labels);
        }
        off
    }

    fn call_far(&mut self, target: LiteralId) {
        proof {
            lemma_mnemonics();
        }
        self.ldr_literal(xr(16), target);
        let ops: [Operand; 1] = [x(16)];
        assert(ops@ =~= seq![spec_x(16)]);
        self.emit("blr", &ops);
    }

    fn finish(&mut self) -> (b: CodeBlob) {
        let ghost c = self.code();
        reveal(Code::literals_ok);
        let n: usize = self.words.len();
        let ghost first = pool_word(n as nat) as int;
        let first_low: u32 = low32(n).wrapping_add(low32(n % 2));
        proof {
            lemma_wrap_plus(n as int, (n % 2) as int);
        }
        let mut out: Vec<u32> = Vec::new();
        let mut i: usize = 0;
        while i < n
            invariant
                i <= n,
                n == c.insns.len(),
                first == pool_word(n as nat),
                first_low == wrap(first),
                self.ok(),
                self.code() == c,
                self.words@.len() == n,
                self.labels@.len() == c.labels.len(),
                finishable(c),
                out@.len() == i,
                forall|k: int| 0 <= k < i ==> #[trigger] out@[k] == final_word(c, k),
            decreases n - i,
        {
            let w: u32 = self.words[i];
            let ghost insn = c.insns[i as int];
            match self.fixups[i] {
                Fixup::Plain => {
                    out.push(w);
                },
                Fixup::Branch(l, kind) => {
                    proof {
                        assert(insn_label(c.insns[i as int]) == Some(Label(l.0)));
                        assert(c.refers(l.0));
                        assert(c.is_bound(l.0));
                        assert(c.labels[l.0 as int] == label_view(self.labels@[l.0 as int]));
                    }
                    let target: usize = match self.labels[l.0 as usize] {
                        Some(t) => t,
                        None => 0,
                    };
                    proof {
                        lemma_wrap_sub(target as int, i as int);
                    }
                    let delta: u32 = low32(target).wrapping_sub(low32(i));
                    let f: u32 = field(kind, delta);
                    assert(f == branch_field(insn, delta));
                    out.push(w | f);
                },
                Fixup::Literal(lit) => {
                    assert(insn is LdrLit);
                    proof {
                        let two = 2 * lit.0 as int;
                        vstd::arithmetic::div_mod::lemma_mul_mod_noop_right(2, lit.0 as int, 0x1_0000_0000);
                        lemma_wrap_plus(first, two);
                        lemma_wrap_sub(first + two, i as int);
                    }
                    let delta: u32 = first_low.wrapping_add(lit.0.wrapping_mul(2)).wrapping_sub(low32(i));
                    let f: u32 = field(BranchKind::B19, delta);
                    assert(f == branch_field(insn, delta));
                    out.push(w | f);
                },
            }
            i += 1;
        }
        if n % 2 == 1 {
            out.push(0);
        }
        let ghost head = out@;
        assert(head =~= Seq::new(c.insns.len(), |i: int| final_word(c, i)) + Seq::new(
            c.insns.len() % 2,
            |i: int| 0u32,
        ));
        let literal_off: u32 = offset_of(first_low, Ghost(first));
        let mut relocs: Vec<Reloc> = Vec::new();
        let mut j: usize = 0;
        while j < self.relocs.len()
            invariant
                j <= self.relocs@.len(),
                relocs@ == self.relocs@.take(j as int),
            decreases self.relocs@.len() - j,
        {
            relocs.push(self.relocs[j]);
            assert(self.relocs@.take(j as int).push(self.relocs@[j as int]) =~= self.relocs@.take(j as int + 1));
            j += 1;
        }
        assert(self.relocs@.take(j as int) =~= self.relocs@);
        assert(relocs@ =~= site_relocs(c.insns) + pool_relocs(c.pool.take(0), literal_off));
        let m: usize = self.literals.len();
        let mut k: usize = 0;
        while k < m
            invariant
                k <= m,
                m == c.pool.len(),
                self.literals@ == c.pool,
                literal_off == word_offset(pool_word(c.insns.len())),
                out@ =~= head + pool_words(c.pool.take(k as int)),
                relocs@ =~= site_relocs(c.insns) + pool_relocs(c.pool.take(k as int), literal_off),
            decreases m - k,
        {
            let (v, kind): (u64, Option<RelocKind>) = self.literals[k];
            out.push((v & 0xFFFF_FFFF) as u32);
            out.push((v >> 32) as u32);
            proof {
                let t = c.pool.take(k as int + 1);
                assert(t.drop_last() =~= c.pool.take(k as int));
                assert forall|a: int| 0 <= a < 2 * k implies pool_words(t)[a] == #[trigger] pool_words(
                    c.pool.take(k as int),
                )[a] by {
                    assert(t[a / 2] == c.pool.take(k as int)[a / 2]);
                }
                assert(out@ =~= head + pool_words(t));
            }
            match kind {
                Some(kd) => {
                    proof {
                        vstd::arithmetic::div_mod::lemma_mul_mod_noop_right(8, k as int, 0x1_0000_0000);
                        lemma_wrap_plus(literal_off as int, 8 * k as int);
                    }
                    relocs.push(
                        Reloc { offset: literal_off.wrapping_add(low32(k).wrapping_mul(8)), kind: kd },
                    );
                },
                None => {},
            }
            k += 1;
        }
        assert(c.pool.take(m as int) =~= c.pool);
        assert(out@ =~= image_words(c));
        let code: Vec<u8> = to_bytes(&out);
        let mut listing: Vec<String> = Vec::new();
        std::mem::swap(&mut listing, &mut self.listing);
        self.words = Vec::new();
        self.fixups = Vec::new();
        self.labels = Vec::new();
        self.relocs = Vec::new();
        self.finished = true;
        proof {
            self.insns@ = Seq::empty();
            assert(self.code().labels =~= Seq::empty());
        }
        CodeBlob { code, literal_off, relocs, listing }
    }
}

/// An entry found in a prefix of the pool stands at the same place in the whole pool.
proof fn lemma_pool_index_prefix(pool: Seq<(u64, Option<RelocKind>)>, e: (u64, Option<RelocKind>), n: nat)
    requires
        n <= pool.len(),
        pool_index(pool.take(n as int), e) < n,
    ensures
        pool_index(pool, e) == pool_index(pool.take(n as int), e),
    decreases pool.len() - n,
{
    if n == pool.len() {
        assert(pool.take(n as int) =~= pool);
    } else {
        assert(pool.take(n as int + 1).drop_last() =~= pool.take(n as int));
        lemma_pool_index_prefix(pool, e, n + 1);
    }
}

} // verus!
