use macvm::compiler::a64::{encode, mnemonic};
use macvm::compiler::assembler::{
    imm, mem, sp, x, xr, Assembler, CodeBlob, Cond, LiteralId, Operand, RelocKind,
};
use macvm::compiler::jasm_assembler::JasmAssembler;

const NOP: u32 = 0xD503_201F;

fn word(blob: &CodeBlob, at: usize) -> u32 {
    let c = &blob.code;
    u32::from_le_bytes([c[at], c[at + 1], c[at + 2], c[at + 3]])
}

fn quad(blob: &CodeBlob, at: usize) -> u64 {
    (word(blob, at) as u64) | ((word(blob, at + 4) as u64) << 32)
}

fn one(m: &str, ops: &[Operand]) -> u32 {
    let mut a = JasmAssembler::new();
    a.emit(m, ops);
    word(&a.finish(), 0)
}

#[test]
fn emit_matches_corpus_forms() {
    assert_eq!(one("add", &[x(0), x(1), x(2)]), 0x8b02_0020, "add x0, x1, x2");
    assert_eq!(one("sub", &[x(0), x(1), x(2)]), 0xcb02_0020, "sub x0, x1, x2");
    assert_eq!(one("ldr", &[x(0), mem(1, 8)]), 0xf940_0420, "ldr x0, [x1, #8] — scaled");
    assert_eq!(one("movz", &[x(0), imm(0x1234)]), 0xd282_4680, "movz x0, #0x1234");
    let ops = [x(0), mem(1, 1)];
    let direct = encode(mnemonic("ldur").unwrap(), &ops).expect("the encoder knows ldur");
    assert_eq!(one("ldur", &ops), direct, "ldur x0, [x1, #1] — unscaled");
    assert_eq!(direct, 0xf840_1020);
}

#[test]
fn more_encodings() {
    assert_eq!(one("ret", &[]), 0xd65f_03c0);
    assert_eq!(one("cmp", &[x(1), x(2)]), 0xeb02_003f);
    assert_eq!(one("mul", &[x(0), x(1), x(2)]), 0x9b02_7c20);
    assert_eq!(one("blr", &[x(16)]), 0xd63f_0200);
    assert_eq!(one("sub", &[sp(), sp(), imm(32)]), 0xd100_83ff);
    assert_eq!(mnemonic("frobnicate"), None);
}

#[test]
fn label_backward_branch_bits() {
    let mut a = JasmAssembler::new();
    let l = a.new_label();
    a.bind(l);
    for _ in 0..4 {
        a.emit_u32(NOP);
    }
    a.b(l);
    let blob = a.finish();
    let v = word(&blob, 16);
    assert_eq!(v & 0x03FF_FFFF, 0x03FF_FFFC, "imm26 == -4, masked");
    assert_eq!(v & !0x03FF_FFFF, 0x1400_0000, "base opcode bits untouched");
}

#[test]
fn label_forward_branch_patched() {
    let mut a = JasmAssembler::new();
    let l = a.new_label();
    a.b(l);
    assert_eq!(a.word(0), 0x1400_0000, "unpatched placeholder");
    a.bind(l);
    let blob = a.finish();
    assert_eq!(word(&blob, 0), 0x1400_0001, "forward distance of 1 word");
}

#[test]
fn bcond_cbz_tbz_fields() {
    let mut a = JasmAssembler::new();
    let l = a.new_label();
    a.b_cond(Cond::Eq, l);
    a.emit_u32(NOP);
    a.bind(l);
    let v = word(&a.finish(), 0);
    assert_eq!((v >> 5) & 0x7FFFF, 2, "imm19 at [23:5], forward 2 words");
    assert_eq!(v & !(0x7FFFF << 5), 0x5400_0000, "b.eq base bits");

    let mut a = JasmAssembler::new();
    let l = a.new_label();
    a.bind(l);
    for _ in 0..3 {
        a.emit_u32(NOP);
    }
    a.cbz(xr(0), l);
    let v = word(&a.finish(), 12);
    assert_eq!((v >> 5) & 0x7FFFF, 0x7_FFFD, "imm19 == -3, masked");

    let mut a = JasmAssembler::new();
    let l = a.new_label();
    a.tbz(xr(3), 7, l);
    for _ in 0..4 {
        a.emit_u32(NOP);
    }
    a.bind(l);
    let v = word(&a.finish(), 0);
    assert_eq!((v >> 5) & 0x3FFF, 5, "imm14 at [18:5], forward 5 words");

    let mut a = JasmAssembler::new();
    let l = a.new_label();
    a.bind(l);
    for _ in 0..2 {
        a.emit_u32(NOP);
    }
    a.tbnz(xr(3), 40, l);
    let v = word(&a.finish(), 8);
    assert_eq!((v >> 5) & 0x3FFF, 0x3FFE, "imm14 == -2, masked");
    assert_eq!((v >> 19) & 0x1F, 40 & 0x1F, "b40 field");
    assert_eq!((v >> 31) & 1, 1, "b5 field set for bit >= 32");
}

#[test]
fn cbnz_and_far_calls() {
    let mut a = JasmAssembler::new();
    let l = a.new_label();
    a.cbnz(xr(5), l);
    a.bind(l);
    let lit = a.literal_u64(0x1234, Some(RelocKind::RuntimeAddr));
    a.call_far(lit);
    let at = a.bl_patchable(RelocKind::RuntimeAddr);
    assert_eq!(at, a.offset() - 4);
    let blob = a.finish();
    assert_eq!(word(&blob, 0), 0xb500_0025);
    assert_eq!(quad(&blob, blob.literal_off as usize), 0x1234);
    assert_eq!(blob.relocs.len(), 2);
    assert!(blob.relocs.iter().any(|r| r.offset == at));
}

#[test]
fn ldr_literal_encoding() {
    let mut a = JasmAssembler::new();
    let lit = a.literal_u64(0xDEAD_BEEF, None);
    a.ldr_literal(xr(0), lit);
    for _ in 0..3 {
        a.emit_u32(NOP);
    }
    let blob = a.finish();
    assert_eq!(blob.literal_off, 16);
    assert_eq!(word(&blob, 0), 0x5800_0080);
}

#[test]
fn finish_pool_layout() {
    let mut a = JasmAssembler::new();
    a.emit_u32(NOP);
    let l1 = a.literal_u64(100, Some(RelocKind::Oop));
    let l2 = a.literal_u64(200, None);
    let l3 = a.literal_u64(100, Some(RelocKind::Oop));
    let l4 = a.literal_u64(100, None);
    assert_eq!(l1, l3, "shared by (value, kind)");
    assert_ne!(l1, l4, "same value, different kind must not be shared");

    let blob = a.finish();
    assert_eq!(blob.literal_off % 8, 0, "pool is 8-aligned");
    assert_eq!(blob.literal_off, 8, "code padded from 4 to 8 bytes");
    assert_eq!(
        blob.code.len(),
        blob.literal_off as usize + 3 * 8,
        "3 distinct pool entries: l1(=l3), l2, l4"
    );
    let oop_relocs: Vec<_> = blob.relocs.iter().filter(|r| r.kind == RelocKind::Oop).collect();
    assert_eq!(oop_relocs.len(), 1, "exactly one Oop reloc");
    assert_eq!(oop_relocs[0].offset, blob.literal_off + 8 * l1.0);
    let word_at = |id: LiteralId| -> u64 { quad(&blob, (blob.literal_off + 8 * id.0) as usize) };
    assert_eq!(word_at(l1), 100);
    assert_eq!(word_at(l2), 200);
    assert_eq!(word_at(l4), 100);
}

#[test]
fn listing_format_stable() {
    let mut a = JasmAssembler::new();
    a.emit("add", &[x(0), x(1), x(2)]);
    let blob = a.finish();
    let expected = format!(
        "{:06x}  {:08x}  add {:?}",
        0u32,
        0x8b02_0020u32,
        [x(0), x(1), x(2)].as_slice()
    );
    assert_eq!(blob.listing[0], expected);
}

#[test]
fn listing_of_other_operands() {
    let mut a = JasmAssembler::new();
    a.emit("ldr", &[x(3), mem(29, 16)]);
    a.emit("sub", &[sp(), sp(), imm(32)]);
    let blob = a.finish();
    assert_eq!(
        blob.listing[0],
        format!("{:06x}  {:08x}  ldr {:?}", 0u32, word(&blob, 0), [x(3), mem(29, 16)].as_slice())
    );
    assert_eq!(
        blob.listing[1],
        format!("{:06x}  {:08x}  sub {:?}", 4u32, word(&blob, 4), [sp(), sp(), imm(32)].as_slice())
    );
}

#[test]
fn reloc_offsets_blob_relative() {
    let mut a = JasmAssembler::new();
    let l1 = a.literal_u64(0x1111_1111_1111_1111, Some(RelocKind::Oop));
    let l2 = a.literal_u64(0x2222_2222_2222_2222, Some(RelocKind::RuntimeAddr));
    a.ldr_literal(xr(0), l1);
    a.ldr_literal(xr(1), l2);
    let blob = a.finish();

    assert_eq!(blob.relocs.len(), 2);
    let by_kind = |k: RelocKind| blob.relocs.iter().find(|r| r.kind == k).unwrap();
    let oop = by_kind(RelocKind::Oop);
    let addr = by_kind(RelocKind::RuntimeAddr);
    assert_eq!(oop.offset, blob.literal_off);
    assert_eq!(addr.offset, blob.literal_off + 8);
    assert_eq!(quad(&blob, oop.offset as usize), 0x1111_1111_1111_1111);
    assert_eq!(quad(&blob, addr.offset as usize), 0x2222_2222_2222_2222);
}

#[test]
fn pool_word_alignment() {
    let mut a = JasmAssembler::new();
    a.emit_u32(NOP);
    a.literal_u64(42, None);
    let blob = a.finish();
    assert_eq!(blob.literal_off % 8, 0);
    assert_eq!(blob.literal_off, 8);
}
