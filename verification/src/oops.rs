//! Object pointers: tagging, layout constants and the register block offsets that compiled code
//! reads.
use vstd::prelude::*;

verus! {

/// Tag of a heap pointer in the two low bits.
pub const MEM_TAG: i64 = 1;

/// Bytes in a word.
pub const WORD_SIZE: i64 = 8;

/// Words of an object header: mark and class.
pub const HEADER_WORDS: u32 = 2;

/// Byte offset of an object's first body word.
pub const BODY_OFFSET: i32 = 16;

/// Register block: address of the live allocation pointer.
pub const VMREG_EDEN_TOP_ADDR_OFFSET: i64 = 0;

/// Register block: end of the allocation space.
pub const VMREG_EDEN_END_OFFSET: i64 = 8;

/// Register block: start of the old generation.
pub const VMREG_OLD_START_OFFSET: i64 = 16;

/// Register block: biased base of the card table.
pub const VMREG_CARD_BASE_BIASED_OFFSET: i64 = 24;

/// Register block: the poll flag.
pub const VMREG_POLL_FLAG_OFFSET: i64 = 32;

/// Reserved-tag word that a compiled activation answers when it gave up.
pub const BAILOUT_SENTINEL: i64 = 2;

/// Reserved-tag word that a call answers while a non-local return unwinds through it.
pub const NLR_SENTINEL: i64 = 6;

/// Reserved-tag word that a primitive answers when it failed.
pub const PRIM_FAIL_SENTINEL: i64 = 10;

/// A selector, by its raw pointer bits.
#[derive(Clone, Copy, Debug, PartialEq, Eq, Structural)]
pub struct SymbolOop(pub u64);

/// A class, by its tagged word.
#[derive(Clone, Copy, Debug, PartialEq, Eq, Structural)]
pub struct KlassOop(pub u64);

/// A compiled method or block, by its tagged word.
#[derive(Clone, Copy, Debug, PartialEq, Eq, Structural)]
pub struct MethodOop(pub u64);

/// A closure, by its tagged word.
#[derive(Clone, Copy, Debug, PartialEq, Eq, Structural)]
pub struct ClosureOop(pub u64);

/// A context, by its tagged word.
#[derive(Clone, Copy, Debug, PartialEq, Eq, Structural)]
pub struct ContextOop(pub u64);

// ── Words ───────────────────────────────────────────────────────────────

/// A tagged word: a small integer, or a pointer to an object.
#[derive(Clone, Copy, Debug, PartialEq, Eq, Structural)]
pub struct Oop(pub u64);

/// The least small integer.
pub const SMI_MIN: i64 = -0x2000_0000_0000_0000;

/// The largest small integer.
pub const SMI_MAX: i64 = 0x1FFF_FFFF_FFFF_FFFF;

/// Whether a number is a small integer.
pub open spec fn is_small(v: i64) -> bool {
    SMI_MIN <= v <= SMI_MAX
}

/// The word of a small integer: four times its value.
pub open spec fn smi_word(v: i64) -> u64 {
    if v >= 0 {
        (4 * v) as u64
    } else {
        (4 * v + 0x1_0000_0000_0000_0000) as u64
    }
}

/// The small integer of a word.
pub open spec fn word_value(w: u64) -> i64 {
    if w < 0x8000_0000_0000_0000 {
        (w / 4) as i64
    } else {
        ((w - 0x1_0000_0000_0000_0000) / 4) as i64
    }
}

impl Oop {
    pub open spec fn spec_raw(self) -> u64 {
        self.0
    }

    #[verifier::when_used_as_spec(spec_raw)]
    pub fn raw(self) -> (w: u64)
        ensures
            w == self.spec_raw(),
    {
        self.0
    }

    pub open spec fn spec_is_smi(self) -> bool {
        self.0 % 4 == 0
    }

    #[verifier::when_used_as_spec(spec_is_smi)]
    pub fn is_smi(self) -> (r: bool)
        ensures
            r == self.spec_is_smi(),
    {
        self.0 % 4 == 0
    }

    pub open spec fn spec_is_mem(self) -> bool {
        self.0 % 4 == 1
    }

    #[verifier::when_used_as_spec(spec_is_mem)]
    pub fn is_mem(self) -> (r: bool)
        ensures
            r == self.spec_is_mem(),
    {
        self.0 % 4 == 1
    }
}

/// A small integer.
#[derive(Clone, Copy, Debug, PartialEq, Eq, Structural)]
pub struct SmallInt(i64);

impl SmallInt {
    pub closed spec fn spec_value(self) -> i64 {
        self.0
    }

    pub fn new(v: i64) -> (r: SmallInt)
        requires
            is_small(v),
        ensures
            r.spec_value() == v,
    {
        SmallInt(v)
    }

    pub fn value(self) -> (v: i64)
        ensures
            v == self.spec_value(),
    {
        self.0
    }

    /// The word that stands for it.
    pub fn oop(self) -> (r: Oop)
        requires
            is_small(self.spec_value()),
        ensures
            r == Oop(smi_word(self.spec_value())),
    {
        let v: i64 = self.0;
        if v >= 0 {
            Oop(v as u64 * 4)
        } else {
            Oop(u64::MAX - ((-v) as u64 * 4 - 1))
        }
    }

    /// The small integer that a word stands for, if it does.
    pub fn try_from(o: Oop) -> (r: Option<SmallInt>)
        ensures
            match r {
                Some(s) => o.is_smi() && s.spec_value() == word_value(o.raw()) && is_small(s.spec_value()),
                None => !o.is_smi(),
            },
    {
        let w: u64 = o.0;
        if w % 4 != 0 {
            return None;
        }
        if w < 0x8000_0000_0000_0000 {
            Some(SmallInt((w / 4) as i64))
        } else {
            let m: u64 = (u64::MAX - w) / 4 + 1;
            Some(SmallInt(-(m as i64)))
        }
    }
}

/// A small integer reads back from its word.
pub proof fn law_small_integers_read_back(v: i64)
    requires
        is_small(v),
    ensures
        Oop(smi_word(v)).is_smi(),
        word_value(smi_word(v)) == v,
{
}

// ── Homes ───────────────────────────────────────────────────────────────

/// The activation that a closure's non-local return goes back from: the process, and the frame
/// with its serial number.
#[derive(Clone, Copy, Debug, PartialEq, Eq, Structural)]
pub struct HomeRef {
    pub proc: u32,
    pub serial: u32,
    pub fp: usize,
}

} // verus!
