//! Runs emitted code: small-integer operations, indexed reads and class guards.

use std::collections::HashMap;

use macvm::compiler::emit::{emit, EmitEnv, EmitOptions, EntryGuard};
use macvm::compiler::ir::{BailoutReason, BlockId, Ir, IrBlock, IrMethod, PoolEntry, PoolLit, SmiOp, VReg, VRegInfo};
use macvm::compiler::jasm_assembler::JasmAssembler;
use macvm::compiler::regalloc::{Assignment, LiveInterval, RegallocResult, SpillSlot};

const SMI_MIN: i64 = -(1 << 61);
const SMI_MAX: i64 = (1 << 61) - 1;

// ── The machine ─────────────────────────────────────────────────────────

struct Cpu {
    x: [u64; 32],
    /// The frame's slots.
    mem: Vec<u64>,
    /// The words of objects.
    heap: HashMap<u64, u64>,
    n: bool,
    z: bool,
    c: bool,
    v: bool,
}

fn bits(w: u32, lo: u32, n: u32) -> u32 {
    (w >> lo) & ((1 << n) - 1)
}

fn sign_extend(v: u32, n: u32) -> i64 {
    ((v << (32 - n)) as i32 >> (32 - n)) as i64
}

impl Cpu {
    /// A register; number 31 reads as zero.
    fn r(&self, i: u32) -> u64 {
        if i == 31 {
            0
        } else {
            self.x[i as usize]
        }
    }

    fn set(&mut self, i: u32, v: u64) {
        if i != 31 {
            self.x[i as usize] = v;
        }
    }

    fn subs(&mut self, a: u64, b: u64) -> u64 {
        let r = a.wrapping_sub(b);
        self.n = (r as i64) < 0;
        self.z = r == 0;
        self.c = a >= b;
        self.v = (a as i64).checked_sub(b as i64).is_none();
        r
    }

    fn adds(&mut self, a: u64, b: u64) -> u64 {
        let r = a.wrapping_add(b);
        self.n = (r as i64) < 0;
        self.z = r == 0;
        self.c = a.checked_add(b).is_none();
        self.v = (a as i64).checked_add(b as i64).is_none();
        r
    }

    fn holds(&self, cond: u32) -> bool {
        match cond {
            0 => self.z,
            1 => !self.z,
            2 => self.c,
            3 => !self.c,
            4 => self.n,
            5 => !self.n,
            6 => self.v,
            7 => !self.v,
            8 => self.c && !self.z,
            9 => !(self.c && !self.z),
            10 => self.n == self.v,
            11 => self.n != self.v,
            12 => !self.z && self.n == self.v,
            13 => !(!self.z && self.n == self.v),
            _ => panic!("condition {cond}"),
        }
    }

    /// The slot that a frame access names; slots lie below `x29`.
    fn slot(&self, off: i64) -> usize {
        assert!(off < 0 && off % 8 == 0);
        (-off / 8 - 1) as usize
    }

    /// Runs from a word on, to the epilogue; the address, where the code is left for another.
    fn run(&mut self, code: &[u32], start: usize) -> Option<u64> {
        let mut pc = start;
        for _ in 0..1000 {
            let w = code[pc];
            let (d, a, b) = (bits(w, 0, 5), bits(w, 5, 5), bits(w, 16, 5));
            let shifted = |v: u64| match bits(w, 22, 2) {
                0 => v << bits(w, 10, 6),
                1 => v >> bits(w, 10, 6),
                _ => ((v as i64) >> bits(w, 10, 6)) as u64,
            };
            let rb = shifted(self.r(b));
            let imm12 = (bits(w, 10, 12) as u64) << if bits(w, 22, 1) == 1 { 12 } else { 0 };
            let mask = || {
                assert_eq!(bits(w, 22, 1), 1);
                let ones = bits(w, 10, 6) + 1;
                let m = if ones == 64 { u64::MAX } else { (1u64 << ones) - 1 };
                m.rotate_right(bits(w, 16, 6))
            };
            let mut next = pc + 1;
            if w == 0x9100_03BF {
                return None; // mov sp, x29
            } else if w & 0xFC00_0000 == 0x1400_0000 {
                next = (pc as i64 + sign_extend(bits(w, 0, 26), 26)) as usize;
            } else if w & 0xFF00_0010 == 0x5400_0000 {
                if self.holds(bits(w, 0, 4)) {
                    next = (pc as i64 + sign_extend(bits(w, 5, 19), 19)) as usize;
                }
            } else if w & 0xFF00_0000 == 0xB400_0000 {
                if self.r(d) == 0 {
                    next = (pc as i64 + sign_extend(bits(w, 5, 19), 19)) as usize;
                }
            } else if w & 0xFF80_0000 == 0xD280_0000 {
                self.set(d, (bits(w, 5, 16) as u64) << (16 * bits(w, 21, 2)));
            } else if w & 0xFFE0_0C00 == 0xF800_0000 || w & 0xFFC0_0000 == 0xF900_0000 {
                // The frame pointer is zero: an address below it is a slot's.
                let off = if bits(w, 24, 1) == 1 { 8 * bits(w, 10, 12) as i64 } else { sign_extend(bits(w, 12, 9), 9) };
                let s = self.slot(self.r(a) as i64 + off);
                self.mem[s] = self.r(d);
            } else if w & 0xFFC0_0000 == 0xF940_0000 {
                let s = self.slot(self.r(a) as i64 + 8 * bits(w, 10, 12) as i64);
                self.set(d, self.mem[s]);
            } else if w & 0xFFE0_0C00 == 0xF840_0000 {
                let off = sign_extend(bits(w, 12, 9), 9);
                let v = if a == 29 {
                    self.mem[self.slot(off)]
                } else {
                    self.heap[&self.r(a).wrapping_add(off as u64)]
                };
                self.set(d, v);
            } else if w & 0xFF00_0000 == 0x5800_0000 {
                let at = (pc as i64 + sign_extend(bits(w, 5, 19), 19)) as usize;
                self.set(d, code[at] as u64 | (code[at + 1] as u64) << 32);
            } else if w & 0xFFFF_FC1F == 0xD61F_0000 {
                return Some(self.r(a));
            } else if w & 0xFFE0_FC00 == 0x9AC0_0C00 {
                let (p, q) = (self.r(a) as i64, self.r(b) as i64);
                self.set(d, if q == 0 { 0 } else { p.wrapping_div(q) as u64 });
            } else if w & 0xFFE0_FC00 == 0x9AC0_2000 {
                self.set(d, self.r(a) << (self.r(b) % 64));
            } else if w & 0xFFE0_FC00 == 0x9AC0_2800 {
                self.set(d, ((self.r(a) as i64) >> (self.r(b) % 64)) as u64);
            } else if w & 0xFFE0_FC00 == 0x9B40_7C00 {
                let p = (self.r(a) as i64 as i128) * (self.r(b) as i64 as i128);
                self.set(d, (p >> 64) as u64);
            } else if w & 0xFFE0_8000 == 0x9B00_0000 {
                self.set(d, self.r(bits(w, 10, 5)).wrapping_add(self.r(a).wrapping_mul(self.r(b))));
            } else if w & 0xFFE0_8000 == 0x9B00_8000 {
                self.set(d, self.r(bits(w, 10, 5)).wrapping_sub(self.r(a).wrapping_mul(self.r(b))));
            } else if w & 0xFFC0_0000 == 0x9340_0000 {
                assert_eq!(bits(w, 10, 6), 63);
                self.set(d, ((self.r(a) as i64) >> bits(w, 16, 6)) as u64);
            } else if w & 0xFFC0_0000 == 0xD340_0000 {
                let (r, s) = (bits(w, 16, 6), bits(w, 10, 6));
                self.set(d, if s == 63 { self.r(a) >> r } else { self.r(a) << (63 - s) });
            } else if w & 0xFF80_0000 == 0x9200_0000 {
                self.set(d, self.r(a) & mask());
            } else if w & 0xFF80_0000 == 0xF200_0000 {
                let v = self.r(a) & mask();
                (self.n, self.z, self.c, self.v) = ((v as i64) < 0, v == 0, false, false);
                self.set(d, v);
            } else if w & 0xFF80_0000 == 0x9100_0000 {
                self.set(d, self.r(a).wrapping_add(imm12));
            } else if w & 0xFF80_0000 == 0xD100_0000 {
                self.set(d, self.r(a).wrapping_sub(imm12));
            } else if w & 0xFF80_0000 == 0xF100_0000 {
                let v = self.subs(self.r(a), imm12);
                self.set(d, v);
            } else if w & 0xFF20_0000 == 0x8B00_0000 {
                self.set(d, self.r(a).wrapping_add(rb));
            } else if w & 0xFF20_0000 == 0xCB00_0000 {
                self.set(d, self.r(a).wrapping_sub(rb));
            } else if w & 0xFF20_0000 == 0xAB00_0000 {
                let v = self.adds(self.r(a), rb);
                self.set(d, v);
            } else if w & 0xFF20_0000 == 0xEB00_0000 {
                let v = self.subs(self.r(a), rb);
                self.set(d, v);
            } else if w & 0xFF20_0000 == 0x8A00_0000 {
                self.set(d, self.r(a) & rb);
            } else if w & 0xFF20_0000 == 0xAA00_0000 {
                self.set(d, self.r(a) | rb);
            } else if w & 0xFF20_0000 == 0xCA00_0000 {
                self.set(d, self.r(a) ^ rb);
            } else {
                panic!("word {w:08x} at {pc}");
            }
            pc = next;
        }
        panic!("no end");
    }
}

// ── Methods ─────────────────────────────────────────────────────────────

/// A method that does one operation on its two arguments.
fn method(op: Ir) -> IrMethod {
    let param = |v: u32| Ir::Param { dst: VReg(v), index: v as u8 };
    IrMethod {
        blocks: vec![
            IrBlock { id: BlockId(0), bci: 0, code: vec![param(0), param(1), op, Ir::Ret { val: VReg(2) }] },
            IrBlock { id: BlockId(1), bci: 9, code: vec![Ir::Bailout { reason: BailoutReason::SmiOpFailed }] },
        ],
        vregs: vec![VRegInfo { is_oop: true, is_fp: false }; 3],
        pool: vec![PoolEntry { value: 0, kind: None }],
        true_lit: PoolLit(0),
        false_lit: PoolLit(0),
        nil_lit: PoolLit(0),
        mark_slots_lit: PoolLit(0),
        mark_double_lit: PoolLit(0),
        double_klass_lit: PoolLit(0),
        float64x2_klass_lit: PoolLit(0),
        float32x4_klass_lit: PoolLit(0),
        int32x4_klass_lit: PoolLit(0),
        call_sites: Vec::new(),
    }
}

/// The words of a method's code, and where its body starts.
fn compiled(m: &IrMethod, spill: Option<u16>, r1a_mode: u8) -> (Vec<u32>, usize) {
    let (words, start, _) = guarded(m, spill, r1a_mode, None);
    (words, start)
}

/// The words of a method's code, where its body starts, and where the guard ends. The values live in
/// registers, or in slots from the given one on.
fn guarded(m: &IrMethod, spill: Option<u16>, r1a_mode: u8, guard: Option<EntryGuard>) -> (Vec<u32>, usize, usize) {
    let home = |v: u32| {
        match spill {
            Some(first) => Assignment::Spill(SpillSlot(first + v as u16)),
            None => Assignment::Reg(9 + v as u8),
        }
    };
    let ra = RegallocResult {
        intervals: (0..3)
            .map(|v| LiveInterval {
                vreg: VReg(v),
                start: 0,
                end: 5,
                assignment: Some(home(v)),
                resident_reg: None,
                is_fp: false,
            })
            .collect(),
        block_order: vec![BlockId(0), BlockId(1)],
        block_start_pos: vec![0, 4],
        frame_slots: match spill {
            Some(first) => first + 3,
            None => 0,
        },
        deopt_nil_init_slots: Vec::new(),
        safepoint_positions: Vec::new(),
        extra_oop_live: Vec::new(),
    };
    let env = EmitEnv {
        known_smi: vec![false; 3],
        const_smi: vec![None; 3],
        const_pool: vec![None; 3],
        leaf_prim: None,
        options: EmitOptions { s2_mode: 1, r1a_mode, resident_across_calls: false, prologue_stp: false },
    };
    let mut a = JasmAssembler::new();
    let (blob, pcs, entry, ..) = emit(&mut a, m, &ra, 0, 0, 0, 0, 0, 0, 0, 0, 0, None, guard, None, false, &env);
    let words = blob.code.chunks(4).map(|b| u32::from_le_bytes([b[0], b[1], b[2], b[3]])).collect();
    (words, pcs[0].pc_off as usize / 4, entry as usize / 4)
}

const BAILED_OUT: u64 = 2;

fn cpu(heap: HashMap<u64, u64>) -> Cpu {
    Cpu { x: [0; 32], mem: vec![0; 64], heap, n: false, z: false, c: false, v: false }
}

fn run(code: &(Vec<u32>, usize), a: u64, b: u64) -> u64 {
    let mut cpu = cpu(HashMap::new());
    cpu.x[0] = a;
    cpu.x[1] = b;
    assert_eq!(cpu.run(&code.0, code.1), None);
    cpu.x[0]
}

/// What the operation answers: the tagged value, or the bailout where there is none.
fn answer(v: Option<i128>) -> u64 {
    match v {
        Some(v) if SMI_MIN as i128 <= v && v <= SMI_MAX as i128 => (v << 2) as u64,
        _ => BAILED_OUT,
    }
}

const VALUES: [i64; 15] =
    [0, 1, -1, 2, -2, 7, -7, 61, -61, 62, 1 << 31, -(1 << 33) - 5, SMI_MAX, SMI_MIN, SMI_MIN + 1];

fn check(op: Ir, expected: impl Fn(i128, i128) -> Option<i128>) {
    let m = method(op);
    for (spill, mode) in [(None, 0), (Some(0), 0), (Some(0), 1), (Some(0), 2), (Some(40), 0), (Some(40), 1), (Some(40), 2)] {
        let code = compiled(&m, spill, mode);
        for a in VALUES {
            for b in VALUES {
                let got = run(&code, (a << 2) as u64, (b << 2) as u64);
                assert_eq!(got, answer(expected(a as i128, b as i128)), "{a} {b} spill {spill:?} mode {mode}");
            }
        }
        // An operand that is no small integer.
        assert_eq!(run(&code, 0x1001, 8), BAILED_OUT);
        assert_eq!(run(&code, 8, 0x1001), BAILED_OUT);
    }
}

fn arith(op: SmiOp) -> Ir {
    Ir::SmiArith { op, dst: VReg(2), a: VReg(0), b: VReg(1), fail: BlockId(1) }
}

#[test]
fn sums_and_differences_are_checked() {
    check(arith(SmiOp::Add), |a, b| Some(a + b));
    check(arith(SmiOp::Sub), |a, b| Some(a - b));
}

#[test]
fn bits_stay_tagged() {
    check(arith(SmiOp::And), |a, b| Some(a & b));
    check(arith(SmiOp::Or), |a, b| Some(a | b));
    check(arith(SmiOp::Xor), |a, b| Some(a ^ b));
}

#[test]
fn products_are_checked() {
    check(arith(SmiOp::Mul), |a, b| Some(a * b));
}

#[test]
fn division_is_floored() {
    let floor = |a: i128, b: i128| {
        let q = a / b;
        if a % b != 0 && (a % b < 0) != (b < 0) {
            q - 1
        } else {
            q
        }
    };
    check(arith(SmiOp::Div), |a, b| if b == 0 { None } else { Some(floor(a, b)) });
    check(arith(SmiOp::Mod), |a, b| if b == 0 { None } else { Some(a - floor(a, b) * b) });
}

#[test]
fn shifts_are_checked() {
    let op = Ir::SmiShift { dst: VReg(2), a: VReg(0), count: VReg(1), fail: BlockId(1) };
    check(op, |a, c| {
        if !(-61..=61).contains(&c) {
            None
        } else if c >= 0 {
            Some(a << c)
        } else {
            Some(a >> -c)
        }
    });
}

const ARRAY_CLASS: u64 = 0x5551;

#[test]
fn indexed_reads_stay_in_range() {
    let op = Ir::ArrayAt { dst: VReg(2), arr: VReg(0), idx: VReg(1), klass: PoolLit(1), fail: BlockId(1) };
    let mut m = method(op);
    m.pool.push(PoolEntry { value: ARRAY_CLASS, kind: None });
    // Three elements, then a word that is not one of them; and an object of another class.
    let heap: HashMap<u64, u64> = HashMap::from([
        (0x2008, ARRAY_CLASS),
        (0x2010, 3 << 2),
        (0x2018, 100),
        (0x2020, 200),
        (0x2028, 300),
        (0x2030, 999),
        (0x3008, 0x7771),
        (0x3010, 3 << 2),
    ]);
    for spill in [None, Some(0)] {
        let code = compiled(&m, spill, 0);
        let read = |object: u64, index: u64| {
            let mut cpu = cpu(heap.clone());
            cpu.x[0] = object;
            cpu.x[1] = index;
            assert_eq!(cpu.run(&code.0, code.1), None);
            cpu.x[0]
        };
        assert_eq!(read(0x2001, 1 << 2), 100);
        assert_eq!(read(0x2001, 2 << 2), 200);
        assert_eq!(read(0x2001, 3 << 2), 300);
        assert_eq!(read(0x2001, 4 << 2), BAILED_OUT);
        assert_eq!(read(0x2001, 0), BAILED_OUT);
        assert_eq!(read(0x2001, (-1i64 << 2) as u64), BAILED_OUT);
        assert_eq!(read(0x2001, (SMI_MIN << 2) as u64), BAILED_OUT);
        assert_eq!(read(0x2001, 0x2001), BAILED_OUT, "no small integer as an index");
        assert_eq!(read(0x3001, 1 << 2), BAILED_OUT, "another class");
        assert_eq!(read(8, 1 << 2), BAILED_OUT, "a small integer is no array");
    }
}

#[test]
fn the_class_guard_is_exact() {
    const SMALL: u64 = 0x1111;
    const RESOLVER: u64 = 0x7000_0000_1234;
    let m = method(Ir::Move { dst: VReg(2), src: VReg(0) });
    let heap: HashMap<u64, u64> = HashMap::from([(0x2008, ARRAY_CLASS), (0x3008, 0x7771)]);
    let enter = |key: u64, receiver: u64| {
        let guard = EntryGuard { smi_klass_bits: SMALL, key_klass_bits: key, resolve_addr: RESOLVER };
        let (code, _, entry) = guarded(&m, None, 0, Some(guard));
        let mut cpu = cpu(heap.clone());
        cpu.x[0] = receiver;
        cpu.x[30] = 0xABCD;
        // The verified entry starts with the frame, which leaves all else as it is.
        let mut head = code[..entry].to_vec();
        head.push(0x9100_03BF);
        head.extend_from_slice(&code[entry + 1..]);
        let left = cpu.run(&head, 0);
        assert_eq!((cpu.x[0], cpu.x[30]), (receiver, 0xABCD));
        left
    };
    assert_eq!(enter(ARRAY_CLASS, 0x2001), None);
    assert_eq!(enter(ARRAY_CLASS, 0x3001), Some(RESOLVER));
    assert_eq!(enter(ARRAY_CLASS, 8), Some(RESOLVER));
    assert_eq!(enter(SMALL, 8), None);
    assert_eq!(enter(SMALL, 0x2001), Some(RESOLVER));
}
