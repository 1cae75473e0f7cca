use macvm::compiler::assembler::{CodeBlob, RelocKind};
use macvm::compiler::emit::{
    emit, r1a_mode, s2_mode, EmitEnv, EmitOptions, EmitOsr, Emitted, EntryGuard,
};
use macvm::compiler::ir::{
    BailoutReason, BlockId, CallSiteInfo, CmpOp, Ir, IrBlock, IrMethod, PoolEntry, PoolLit, SmiOp, VReg, VRegInfo,
};
use macvm::compiler::jasm_assembler::JasmAssembler;
use macvm::compiler::regalloc::{Assignment, LiveInterval, RegallocResult, SpillSlot};
use macvm::oops::SymbolOop;

const BODY_OFFSET: i32 = 16;

/// Listing format: "<pc_off>  <hex_word>  <mnemonic> [<operands>]".
fn mnemonic(l: &str) -> &str {
    l.split_whitespace().nth(2).unwrap_or("")
}

fn line_pc_off(l: &str) -> u32 {
    u32::from_str_radix(l.split_whitespace().next().unwrap(), 16).unwrap()
}

fn mnemonics(blob: &CodeBlob) -> Vec<&str> {
    blob.listing.iter().map(|l| mnemonic(l)).collect()
}

fn block(id: u32, bci: usize, code: Vec<Ir>) -> IrBlock {
    IrBlock { id: BlockId(id), bci, code }
}

fn oops(n: usize) -> Vec<VRegInfo> {
    vec![VRegInfo { is_oop: true, is_fp: false }; n]
}

fn hand_method(blocks: Vec<IrBlock>, vregs: Vec<VRegInfo>) -> IrMethod {
    IrMethod {
        blocks,
        vregs,
        pool: vec![PoolEntry { value: 0, kind: None }],
        true_lit: PoolLit(0),
        false_lit: PoolLit(0),
        nil_lit: PoolLit(0),
        mark_slots_lit: PoolLit(0),
        mark_double_lit: PoolLit(0),
        double_klass_lit: PoolLit(0),
        float64x2_klass_lit: PoolLit(0),
        float32x4_klass_lit: PoolLit(0),
        int32x4_klass_lit: PoolLit(0),
        call_sites: Vec::new(),
    }
}

/// Every register a home of its own: machine registers, or spill slots.
fn homes(m: &IrMethod, spill: bool) -> RegallocResult {
    let mut pos = 0u32;
    let mut starts = Vec::new();
    let mut safepoints = Vec::new();
    for b in &m.blocks {
        starts.push(pos);
        for op in &b.code {
            if matches!(op, Ir::CallSend { .. } | Ir::Alloc { .. }) {
                safepoints.push(pos);
            }
            pos += 1;
        }
    }
    let intervals = (0..m.vregs.len() as u32)
        .map(|v| LiveInterval {
            vreg: VReg(v),
            start: 0,
            end: pos,
            assignment: Some(if spill {
                Assignment::Spill(SpillSlot(v as u16))
            } else {
                Assignment::Reg(9 + v as u8)
            }),
            resident_reg: None,
            is_fp: false,
        })
        .collect();
    RegallocResult {
        intervals,
        block_order: m.blocks.iter().map(|b| b.id).collect(),
        block_start_pos: starts,
        frame_slots: if spill { m.vregs.len() as u16 } else { 0 },
        deopt_nil_init_slots: Vec::new(),
        safepoint_positions: safepoints,
        extra_oop_live: Vec::new(),
    }
}

fn env(m: &IrMethod) -> EmitEnv {
    let n = m.vregs.len();
    EmitEnv {
        known_smi: vec![false; n],
        const_smi: vec![None; n],
        const_pool: vec![None; n],
        leaf_prim: None,
        options: EmitOptions {
            s2_mode: s2_mode(false, None),
            r1a_mode: r1a_mode(None),
            resident_across_calls: false,
            prologue_stp: false,
        },
    }
}

fn run(m: &IrMethod, ra: &RegallocResult, guard: Option<EntryGuard>, frameless: bool) -> Emitted {
    let mut a = JasmAssembler::new();
    emit(&mut a, m, ra, 0, 0, 0, 0, 0, 0, 0, 0, 0, None, guard, None, frameless, &env(m))
}

fn param(v: u32, index: u8) -> Ir {
    Ir::Param { dst: VReg(v), index }
}

fn branchy_method() -> IrMethod {
    let block0 = block(
        0,
        0,
        vec![
            param(0, 0),
            param(1, 1),
            param(2, 2),
            Ir::SmiArith { op: SmiOp::Add, dst: VReg(3), a: VReg(1), b: VReg(2), fail: BlockId(3) },
            Ir::ConstSmi { dst: VReg(4), value: 10 },
            Ir::SmiCmpBr {
                op: CmpOp::Lt,
                a: VReg(3),
                b: VReg(4),
                if_true: BlockId(1),
                if_false: BlockId(2),
                fail: BlockId(3),
            },
        ],
    );
    let block1 = block(1, 10, vec![Ir::ConstSmi { dst: VReg(5), value: 1 }, Ir::Ret { val: VReg(5) }]);
    let block2 = block(2, 20, vec![Ir::ConstSmi { dst: VReg(6), value: 0 }, Ir::Ret { val: VReg(6) }]);
    let block3 = block(3, 30, vec![Ir::Bailout { reason: BailoutReason::SmiOpFailed }]);
    hand_method(vec![block0, block1, block2, block3], oops(7))
}

#[test]
fn pcdesc_block_starts() {
    let method = branchy_method();
    let ra = homes(&method, false);
    let (_blob, block_pcs, _entry, _ics, _safepoints, _osr, _lids) = run(&method, &ra, None, false);

    assert_eq!(block_pcs.len(), 4, "one BlockPc per block, including the bailout block");
    let mut sorted = block_pcs.clone();
    sorted.sort_by_key(|bp| bp.pc_off);
    assert_eq!(
        block_pcs.iter().map(|bp| bp.pc_off).collect::<Vec<_>>(),
        sorted.iter().map(|bp| bp.pc_off).collect::<Vec<_>>(),
        "block_pcs must already be sorted by pc_off"
    );
    for (i, &bid) in ra.block_order.iter().enumerate() {
        let expected_bci = method.blocks[bid.0 as usize].bci;
        assert_eq!(block_pcs[i].bci, expected_bci, "block_pcs[{i}] must report its block's own bci");
    }
}

#[test]
fn emit_smi_mul_overflow_seq() {
    let block0 = block(
        0,
        0,
        vec![
            param(0, 0),
            param(1, 1),
            param(2, 2),
            Ir::SmiArith { op: SmiOp::Mul, dst: VReg(3), a: VReg(1), b: VReg(2), fail: BlockId(1) },
            Ir::Ret { val: VReg(3) },
        ],
    );
    let block1 = block(1, 10, vec![Ir::Bailout { reason: BailoutReason::SmiOpFailed }]);
    let method = hand_method(vec![block0, block1], oops(4));
    let ra = homes(&method, false);
    let (blob, _pcs, _entry, _ics, _safepoints, _osr, _lids) = run(&method, &ra, None, false);

    let mnemonics = mnemonics(&blob);
    let asr_pos = mnemonics.iter().position(|&m| m == "asr");
    let mul_pos = mnemonics.iter().position(|&m| m == "mul");
    let smulh_pos = mnemonics.iter().position(|&m| m == "smulh");
    let cmp_pos = mnemonics.iter().position(|&m| m == "cmp");
    assert!(
        asr_pos.is_some() && mul_pos.is_some() && smulh_pos.is_some() && cmp_pos.is_some(),
        "Mul must emit asr, mul, smulh, and cmp -- got listing:\n{}",
        blob.listing.join("\n")
    );
    assert!(asr_pos < mul_pos, "asr (shift off the tag) before mul");
    assert!(mul_pos < smulh_pos, "mul (low 64 bits) before smulh (high 64 bits)");
    assert!(smulh_pos < cmp_pos, "smulh before the overflow cmp");
    let cmp_line = &blob.listing[cmp_pos.unwrap()];
    assert!(
        cmp_line.contains("Asr") && cmp_line.contains("63"),
        "the overflow check must compare against the low word's sign extension -- got: {cmp_line}"
    );
    assert!(!mnemonics.contains(&"b.vs") && !blob.listing.iter().any(|l| l.contains("Vs")));
}

#[test]
fn emit_ldur_vs_untag_split() {
    let make = |index: u8| {
        let byte_off = BODY_OFFSET + 8 * index as i32;
        let block0 = block(
            0,
            0,
            vec![
                param(0, 0),
                Ir::LoadField { dst: VReg(1), obj: VReg(0), byte_off },
                Ir::Ret { val: VReg(1) },
            ],
        );
        hand_method(vec![block0], oops(2))
    };

    let near = make(30);
    let ra = homes(&near, false);
    let (blob, _pcs, _entry, _ics, _safepoints, _osr, _lids) = run(&near, &ra, None, false);
    let near_mnemonics = mnemonics(&blob);
    assert!(near_mnemonics.contains(&"ldur"), "index 30 must use ldur:\n{}", blob.listing.join("\n"));
    assert!(!near_mnemonics.contains(&"sub"), "index 30 needs no split:\n{}", blob.listing.join("\n"));

    let far = make(31);
    let ra2 = homes(&far, false);
    let (blob2, _pcs, _entry, _ics, _safepoints, _osr, _lids) = run(&far, &ra2, None, false);
    let far_mnemonics = mnemonics(&blob2);
    assert!(far_mnemonics.contains(&"sub"), "index 31 must untag first:\n{}", blob2.listing.join("\n"));
    assert!(far_mnemonics.contains(&"ldr"), "index 31 must follow with a plain ldr");
    assert!(!blob2.listing.iter().any(|l| l.contains("ldur")), "index 31 must not use ldur");
}

#[test]
fn barrier_emitted_conditions() {
    let make = |barrier: bool| {
        let block0 = block(
            0,
            0,
            vec![
                param(0, 0),
                param(1, 1),
                Ir::StoreField { obj: VReg(0), byte_off: BODY_OFFSET, val: VReg(1), barrier },
                Ir::RetSelf,
            ],
        );
        hand_method(vec![block0], oops(2))
    };

    let with_barrier = make(true);
    let ra = homes(&with_barrier, false);
    let (blob, _pcs, _entry, _ics, _safepoints, _osr, _lids) = run(&with_barrier, &ra, None, false);
    let m = mnemonics(&blob);
    assert!(m.iter().any(|&m| m == "stur" || m == "str"), "the store itself:\n{}", blob.listing.join("\n"));
    assert!(m.contains(&"strb"), "the card-dirtying strb:\n{}", blob.listing.join("\n"));
    assert!(m.contains(&"lsr"), "the card-index shift:\n{}", blob.listing.join("\n"));

    let without_barrier = make(false);
    let ra2 = homes(&without_barrier, false);
    let (blob2, _pcs, _entry, _ics, _safepoints, _osr, _lids) = run(&without_barrier, &ra2, None, false);
    let m2 = mnemonics(&blob2);
    assert!(m2.iter().any(|&m| m == "stur" || m == "str"), "the store itself:\n{}", blob2.listing.join("\n"));
    assert!(!m2.contains(&"strb"), "no card-dirtying strb:\n{}", blob2.listing.join("\n"));
}

#[test]
fn alloc_fast_path_layout() {
    let mut method = hand_method(
        vec![block(
            0,
            0,
            vec![
                Ir::Alloc { dst: VReg(0), klass: PoolLit(2), size_words: 4 },
                Ir::Ret { val: VReg(0) },
            ],
        )],
        oops(1),
    );
    method.pool = vec![
        PoolEntry { value: 0x1111, kind: Some(RelocKind::Oop) },
        PoolEntry { value: 0x2222, kind: None },
        PoolEntry { value: 0x3333, kind: Some(RelocKind::Oop) },
    ];
    method.mark_slots_lit = PoolLit(1);
    let ra = homes(&method, false);
    let mut a = JasmAssembler::new();
    let (blob, _pcs, _entry, _ics, _safepoints, _osr, _lids) = emit(
        &mut a,
        &method,
        &ra,
        0,
        0,
        0xAABB,
        0,
        0,
        0,
        0,
        0,
        0,
        None,
        None,
        None,
        false,
        &env(&method),
    );
    let listing = blob.listing.join("\n");
    let mnemonics = mnemonics(&blob);

    let fast_path_shape = ["ldr", "ldr", "add", "ldr", "cmp", "b.", "str", "sub"];
    let window_found = mnemonics.windows(fast_path_shape.len()).any(|w| {
        w.iter().zip(fast_path_shape.iter()).all(|(m, want)| {
            if *want == "b." {
                m.starts_with("b.")
            } else {
                m == want
            }
        })
    });
    assert!(window_found, "the through-the-pointer fast path must appear contiguously:\n{listing}");
    assert!(
        mnemonics.iter().filter(|m| **m == "str").count() >= 4,
        "commit + mark + klass + 2 body stores (>=4 str):\n{listing}"
    );
    assert!(mnemonics.contains(&"blr"), "slow-path call:\n{listing}");
    assert!(listing.contains("num: 19"), "obj base must be x19:\n{listing}");
    assert!(listing.contains("num: 20"), "the eden.top address must ride in x20:\n{listing}");
    assert!(!listing.contains("num: 18"), "x18 must never appear:\n{listing}");
}

fn ret_self_method() -> IrMethod {
    hand_method(vec![block(0, 0, vec![param(0, 0), Ir::RetSelf])], oops(1))
}

#[test]
fn entry_guard_smi_and_heap() {
    let method = ret_self_method();
    let ra = homes(&method, false);
    let guard = EntryGuard { smi_klass_bits: 0x1000, key_klass_bits: 0x2000, resolve_addr: 0x3000 };
    let (blob, _pcs, verified_entry_off, _ics, _safepoints, _osr, _lids) = run(&method, &ra, Some(guard), false);

    let stp_line = blob
        .listing
        .iter()
        .find(|l| mnemonic(l) == "stp")
        .unwrap_or_else(|| panic!("no stp in listing:\n{}", blob.listing.join("\n")));
    assert_eq!(verified_entry_off, line_pc_off(stp_line), "the first prologue instruction");

    let guard_lines: Vec<&str> = blob
        .listing
        .iter()
        .filter(|l| line_pc_off(l) < verified_entry_off)
        .map(|s| s.as_str())
        .collect();
    let guard_mnemonics: Vec<&str> = guard_lines.iter().map(|l| mnemonic(l)).collect();
    assert_eq!(
        guard_mnemonics.first(),
        Some(&"tst"),
        "guard must open by testing the receiver's tag bits -- got:\n{}",
        guard_lines.join("\n")
    );
    assert!(guard_mnemonics.contains(&"ldur"), "the klass word via ldur:\n{}", guard_lines.join("\n"));
    assert_eq!(
        guard_mnemonics.iter().filter(|&&m| m == "ldr").count(),
        2,
        "a heap-keyed guard loads key_klass and resolve_addr and nothing else:\n{}",
        guard_lines.join("\n")
    );
    assert!(
        guard_mnemonics.contains(&"cmp"),
        "guard must compare the actual klass against key_klass -- got:\n{}",
        guard_lines.join("\n")
    );
    assert!(
        guard_mnemonics.contains(&"br"),
        "guard's miss path must reach stub_resolve via an indirect br -- got:\n{}",
        guard_lines.join("\n")
    );
    assert!(
        !guard_mnemonics.contains(&"blr") && !guard_mnemonics.contains(&"bl"),
        "guard must never touch x30 -- got:\n{}",
        guard_lines.join("\n")
    );
}

#[test]
fn entry_guard_smi_keyed_keeps_merged_shape() {
    let method = ret_self_method();
    let ra = homes(&method, false);
    let guard = EntryGuard { smi_klass_bits: 0x1000, key_klass_bits: 0x1000, resolve_addr: 0x3000 };
    let (blob, _pcs, verified_entry_off, _ics, _safepoints, _osr, _lids) = run(&method, &ra, Some(guard), false);
    let guard_lines: Vec<&str> = blob
        .listing
        .iter()
        .filter(|l| line_pc_off(l) < verified_entry_off)
        .map(|s| s.as_str())
        .collect();
    let guard_mnemonics: Vec<&str> = guard_lines.iter().map(|l| mnemonic(l)).collect();
    assert_eq!(
        guard_mnemonics.iter().filter(|&&m| m == "ldr").count(),
        3,
        "a smi-keyed guard keeps all three literal loads:\n{}",
        guard_lines.join("\n")
    );
    assert!(
        guard_mnemonics.contains(&"ldur"),
        "the merged guard still loads a heap receiver's klass word via ldur -- got:\n{}",
        guard_lines.join("\n")
    );
}

#[test]
fn pool_relocs_after_literal_off() {
    let mut method = hand_method(
        vec![block(
            0,
            0,
            vec![Ir::ConstPool { dst: VReg(0), lit: PoolLit(0) }, Ir::Ret { val: VReg(0) }],
        )],
        oops(1),
    );
    method.pool = vec![PoolEntry { value: 0x4000, kind: Some(RelocKind::Oop) }];
    let ra = homes(&method, false);
    let guard = EntryGuard { smi_klass_bits: 0x1000, key_klass_bits: 0x2000, resolve_addr: 0x3000 };
    let (blob, _pcs, _entry, _ics, _safepoints, _osr, _lids) = run(&method, &ra, Some(guard), false);

    let oop_relocs: Vec<_> = blob
        .relocs
        .iter()
        .filter(|r| matches!(r.kind, RelocKind::Oop | RelocKind::KeyKlassOop))
        .collect();
    assert!(oop_relocs.len() >= 2, "got {}: {:?}", oop_relocs.len(), blob.relocs);
    for r in &oop_relocs {
        assert!(
            r.offset >= blob.literal_off,
            "reloc at offset {} (kind {:?}) is before literal_off {}",
            r.offset,
            r.kind,
            blob.literal_off
        );
    }
}

#[test]
fn ic_site_recorded_per_send() {
    let block0 = block(
        0,
        0,
        vec![
            param(0, 0),
            param(1, 1),
            param(2, 2),
            Ir::CallSend { dst: VReg(3), site: 0, args: vec![VReg(0), VReg(1)] },
            Ir::CallSend { dst: VReg(4), site: 1, args: vec![VReg(3), VReg(2)] },
            Ir::CallSend { dst: VReg(5), site: 2, args: vec![VReg(2), VReg(4)] },
            Ir::Ret { val: VReg(5) },
        ],
    );
    let mut method = hand_method(vec![block0], oops(6));
    method.call_sites = vec![
        CallSiteInfo { selector: SymbolOop(0xF001), argc: 2 },
        CallSiteInfo { selector: SymbolOop(0xF101), argc: 2 },
        CallSiteInfo { selector: SymbolOop(0xF201), argc: 2 },
    ];
    for spill in [true, false] {
        let ra = homes(&method, spill);
        let (blob, _pcs, _entry, ic_sites, _safepoints, _osr, _lids) = run(&method, &ra, None, false);

        assert_eq!(ic_sites.len(), 3, "one EmittedIcSite per CallSend -- got {ic_sites:?}");
        for (i, site) in ic_sites.iter().enumerate() {
            assert_eq!(site.selector, method.call_sites[i].selector);
            assert_eq!(site.argc, 2, "ic_sites[{i}] must carry its site's own argc");
            let line = blob.listing.iter().find(|l| line_pc_off(l) == site.off).unwrap_or_else(|| {
                panic!("ic_sites[{i}].off {} has no matching listing line", site.off)
            });
            assert_eq!(mnemonic(line), "bl", "ic_sites[{i}].off must point at its own bl -- got: {line}");
        }
        assert!(
            ic_sites[0].off < ic_sites[1].off && ic_sites[1].off < ic_sites[2].off,
            "ic_sites must be in encounter order -- got {ic_sites:?}"
        );
    }
}

#[test]
fn frameless_unit_has_no_prologue_or_epilogue() {
    let emit_with = |frameless: bool| {
        let method = ret_self_method();
        let ra = homes(&method, false);
        let guard = EntryGuard { smi_klass_bits: 0x1000, key_klass_bits: 0x2000, resolve_addr: 0x3000 };
        let (blob, _pcs, verified_entry_off, _ics, safepoints, _osr, _lids) =
            run(&method, &ra, Some(guard), frameless);
        (blob, verified_entry_off, safepoints.len())
    };

    let (framed, _, _) = emit_with(false);
    let framed_mnems = mnemonics(&framed);
    assert!(framed_mnems.contains(&"stp"), "framed keeps its prologue: {framed_mnems:?}");
    assert!(framed_mnems.contains(&"ldp"), "framed keeps its epilogue: {framed_mnems:?}");

    let (blob, verified_entry_off, n_safepoints) = emit_with(true);
    let mnems = mnemonics(&blob);
    assert!(!mnems.contains(&"stp"), "frameless must not push a frame: {mnems:?}");
    assert!(!mnems.contains(&"ldp"), "frameless must not pop a frame: {mnems:?}");
    assert!(
        !blob.listing.iter().any(|l| l.contains("is_sp: true")),
        "frameless must never touch sp: {:?}",
        blob.listing
    );
    assert_eq!(mnems.last(), Some(&"ret"), "frameless body ends in a bare ret");
    assert_eq!(n_safepoints, 0, "frameless unit records no safepoints");
    assert!(verified_entry_off > 0, "guard precedes the verified entry");
}

#[test]
fn modes_follow_their_switches() {
    assert_eq!(s2_mode(true, Some("off")), 2);
    assert_eq!(s2_mode(false, Some("0")), 0);
    assert_eq!(s2_mode(false, Some("off")), 0);
    assert_eq!(s2_mode(false, Some("on")), 1);
    assert_eq!(s2_mode(false, None), 1);
    assert_eq!(r1a_mode(None), 1);
    assert_eq!(r1a_mode(Some("0")), 0);
}

#[test]
fn unguarded_code_starts_with_the_prologue() {
    let method = ret_self_method();
    let ra = homes(&method, false);
    let (blob, pcs, entry, _ics, _safepoints, osr, _lids) = run(&method, &ra, None, false);
    assert_eq!(entry, 0);
    assert_eq!(osr, None);
    assert_eq!(mnemonic(&blob.listing[0]), "stp");
    assert_eq!(pcs.len(), 1);
    assert!(pcs[0].pc_off > 0);
}

#[test]
fn the_replacement_entry_clears_and_copies() {
    let method = branchy_method();
    let ra = homes(&method, true);
    let osr = EmitOsr { header: BlockId(1), copies: vec![SpillSlot(3), SpillSlot(5)], reload_pos: 6 };
    let mut a = JasmAssembler::new();
    let (blob, _pcs, _entry, _ics, safepoints, off, _lids) =
        emit(&mut a, &method, &ra, 0, 0, 0, 0, 0, 0, 0, 0, 0, None, None, Some(&osr), false, &env(&method));
    let off = off.expect("an entry was asked for");
    let tail: Vec<&str> =
        blob.listing.iter().filter(|l| line_pc_off(l) >= off).map(|l| mnemonic(l)).collect();
    let mut expected = vec!["stp", "mov", "sub", "ldr"];
    expected.extend(["str"; 7]);
    expected.extend(["ldr", "str", "ldr", "str", "b"]);
    assert_eq!(tail, expected);
    assert!(safepoints.is_empty());
    let before: Vec<&str> =
        blob.listing.iter().filter(|l| line_pc_off(l) < off).map(|l| mnemonic(l)).collect();
    assert_eq!(before.last(), Some(&"ret"));
}

fn twice_read_method() -> IrMethod {
    let block0 = block(
        0,
        0,
        vec![
            param(0, 0),
            param(1, 1),
            Ir::SmiArith { op: SmiOp::Add, dst: VReg(2), a: VReg(0), b: VReg(1), fail: BlockId(1) },
            Ir::SmiArith { op: SmiOp::Sub, dst: VReg(3), a: VReg(2), b: VReg(0), fail: BlockId(1) },
            Ir::Ret { val: VReg(3) },
        ],
    );
    let block1 = block(1, 9, vec![Ir::Bailout { reason: BailoutReason::SmiOpFailed }]);
    hand_method(vec![block0, block1], oops(4))
}

#[test]
fn a_slot_that_is_read_again_is_mirrored() {
    let method = twice_read_method();
    let ra = homes(&method, true);
    let count = |mode: u8, name: &str| {
        let mut e = env(&method);
        e.options.r1a_mode = mode;
        let mut a = JasmAssembler::new();
        let (blob, ..) = emit(&mut a, &method, &ra, 0, 0, 0, 0, 0, 0, 0, 0, 0, None, None, None, false, &e);
        mnemonics(&blob).iter().filter(|m| **m == name).count()
    };
    // Off: each of the five operands is loaded. On: the two that were never read before.
    assert_eq!(count(0, "ldr"), 5);
    assert_eq!(count(1, "ldr"), 2);
    // Stores stay: two parameters and two results.
    assert_eq!(count(0, "str"), 4);
    assert_eq!(count(1, "str"), 4);
    // Checked: each of the three hits loads its slot and traps where it differs.
    assert_eq!(count(2, "ldr"), 5);
    assert_eq!(count(2, "<raw>"), 3);
    // The second operation's operands are proven by then.
    assert_eq!(count(1, "tst"), 2);
}

#[test]
fn swapped_arguments_go_through_the_scratch_register() {
    let block0 = block(
        0,
        0,
        vec![
            Ir::CallSend { dst: VReg(2), site: 0, args: vec![VReg(0), VReg(1)] },
            Ir::Ret { val: VReg(2) },
        ],
    );
    let mut method = hand_method(vec![block0], oops(3));
    method.call_sites = vec![CallSiteInfo { selector: SymbolOop(0xF001), argc: 1 }];
    let mut ra = homes(&method, false);
    ra.intervals[0].assignment = Some(Assignment::Reg(1));
    ra.intervals[1].assignment = Some(Assignment::Reg(0));
    let (blob, _pcs, _entry, ics, safepoints, _osr, _lids) = run(&method, &ra, None, false);
    let at = blob.listing.iter().position(|l| mnemonic(l) == "bl").unwrap();
    let words: Vec<u32> = blob.listing[at - 3..at]
        .iter()
        .map(|l| u32::from_str_radix(l.split_whitespace().nth(1).unwrap(), 16).unwrap())
        .collect();
    // mov x16, x0; mov x0, x1; mov x1, x16
    assert_eq!(words, [0xAA00_03F0, 0xAA01_03E0, 0xAA10_03E1]);
    assert_eq!(ics.len(), 1);
    assert_eq!(ics[0].off, line_pc_off(&blob.listing[at]));
    // The safepoint is the call's return address.
    assert_eq!(safepoints.len(), 1);
    assert_eq!(safepoints[0].pc_off, ics[0].off + 4);
}

#[test]
fn relocations_are_in_order_and_point_at_their_words() {
    let block0 = block(
        0,
        0,
        vec![
            Ir::CallSend { dst: VReg(1), site: 0, args: vec![VReg(0)] },
            Ir::CallSend { dst: VReg(2), site: 0, args: vec![VReg(1)] },
            Ir::Ret { val: VReg(2) },
        ],
    );
    let mut method = hand_method(vec![block0], oops(3));
    method.call_sites = vec![CallSiteInfo { selector: SymbolOop(0xF001), argc: 0 }];
    let ra = homes(&method, true);
    let (blob, ..) = run(&method, &ra, None, false);
    assert!(blob.relocs.windows(2).all(|w| w[0].offset < w[1].offset));
    for r in &blob.relocs {
        if r.offset < blob.literal_off {
            assert_eq!(r.kind, RelocKind::InlineCache);
            let line = blob.listing.iter().find(|l| line_pc_off(l) == r.offset).unwrap();
            assert_eq!(mnemonic(line), "bl");
        } else {
            assert_eq!((r.offset - blob.literal_off) % 8, 0);
            assert!(r.offset as usize + 8 <= blob.code.len());
        }
    }
    assert_eq!(blob.relocs.iter().filter(|r| r.offset < blob.literal_off).count(), 2);
}

#[test]
fn a_block_outside_the_order_leaves_no_trace() {
    let method = branchy_method();
    let ra = homes(&method, false);
    let plain = run(&method, &ra, None, false);
    let mut longer = branchy_method();
    longer.blocks.push(block(4, 40, vec![Ir::Jump { target: BlockId(4) }]));
    let same = run(&longer, &ra, None, false);
    assert_eq!(plain.0.code, same.0.code);
    assert_eq!(plain.0.listing, same.0.listing);
    assert_eq!(plain.1, same.1);
}

#[test]
fn sends_are_recorded_at_their_call_words() {
    let code = vec![
        param(0, 0),
        Ir::CallSend { dst: VReg(1), site: 0, args: vec![VReg(0)] },
        Ir::CallSend { dst: VReg(2), site: 0, args: vec![VReg(1)] },
        Ir::Ret { val: VReg(2) },
    ];
    let mut method = hand_method(vec![block(0, 0, code)], oops(3));
    method.call_sites = vec![CallSiteInfo { selector: SymbolOop(0xF001), argc: 1 }];
    let guard = EntryGuard { key_klass_bits: 0x11, smi_klass_bits: 0x21, resolve_addr: 0x1000 };
    let (blob, _pcs, _entry, ics, _safepoints, _osr, _lids) = run(&method, &homes(&method, true), Some(guard), false);
    assert_eq!(ics.len(), 2);
    assert!(ics[0].off < ics[1].off);
    for site in &ics {
        let at = site.off as usize;
        assert_eq!(at % 4, 0);
        assert_eq!(blob.code[at..at + 4], [0, 0, 0, 0x94]);
    }
    let sites: Vec<u32> = blob.relocs.iter().map(|r| r.offset).filter(|o| *o < blob.literal_off).collect();
    assert_eq!(sites, ics.iter().map(|s| s.off).collect::<Vec<u32>>());
}

#[test]
fn an_argument_in_a_deep_slot_needs_its_address_first() {
    for (slot, expected) in [(3u32, vec!["ldr", "bl"]), (36, vec!["sub", "ldr", "bl"])] {
        let code = vec![
            param(0, 0),
            Ir::CallSend { dst: VReg(1), site: 0, args: vec![VReg(slot)] },
            Ir::Ret { val: VReg(1) },
        ];
        let mut method = hand_method(vec![block(0, 0, code)], oops(40));
        method.call_sites = vec![CallSiteInfo { selector: SymbolOop(0xF001), argc: 1 }];
        let (blob, _pcs, _entry, ics, _safepoints, _osr, _lids) = run(&method, &homes(&method, true), None, false);
        let at = ics[0].off as usize / 4;
        assert_eq!(mnemonics(&blob)[at + 1 - expected.len()..=at], expected[..]);
    }
}
