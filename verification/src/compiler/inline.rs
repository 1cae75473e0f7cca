//! What to do at a send site: splice the callee in, guard a likely one, call, or trap.
use vstd::prelude::*;
use crate::bytecode::Instr;
use crate::compiler::feedback::{Decoded, FeedbackCase, Method, SiteFeedback};
use crate::oops::{KlassOop, MethodOop};
#[allow(unused_imports)]
use crate::compiler::feedback::bytes_of;
use crate::text::read_byte;
#[allow(unused_imports)]
use crate::text::{byte_number, byte_said, law_trim_is_unique, trim_of};

verus! {

/// How much may be inlined: the cost of one callee, the bytes of all callees, and the depth.
#[derive(Clone, Copy, Debug, PartialEq, Eq, Structural)]
pub struct InlineBudget {
    pub per_call_cost: u32,
    pub total_bytes: u32,
    pub max_depth: u32,
}

/// The level that a switch pins: a number from one to four.
pub open spec fn pinned_by(said: Option<u8>) -> Option<u8> {
    match said {
        Some(n) => if 1 <= n <= 4 {
            Some(n)
        } else {
            None
        },
        None => None,
    }
}

/// What a switch with a value pins; nothing where it is not set.
pub open spec fn pins(value: Option<&str>, pinned: Option<u8>) -> bool {
    match value {
        Some(v) => exists|said: Option<u8>| #[trigger] byte_said(v@, said) && pinned == pinned_by(said),
        None => pinned is None,
    }
}

/// The level that the switch's value pins, if it names one of the four.
pub fn inline_level_override(value: Option<&str>) -> (r: Option<u8>)
    ensures
        pins(value, r),
{
    match value {
        Some(v) => {
            let said: Option<u8> = read_byte(v);
            assert(byte_said(v@, said));
            match said {
                Some(n) => if 1 <= n && n <= 4 {
                    Some(n)
                } else {
                    None
                },
                None => None,
            }
        },
        None => None,
    }
}

/// The level in force: the pinned one where there is one.
pub open spec fn in_force(level: u8, pinned: Option<u8>) -> u8 {
    match pinned {
        Some(p) => p,
        None => level,
    }
}

/// The budget of a recompilation level.
pub open spec fn budget_of(level: u8) -> InlineBudget {
    if level <= 1 {
        InlineBudget { per_call_cost: 30, total_bytes: 300, max_depth: 4 }
    } else if level == 2 {
        InlineBudget { per_call_cost: 50, total_bytes: 600, max_depth: 6 }
    } else if level == 3 {
        InlineBudget { per_call_cost: 80, total_bytes: 1200, max_depth: 8 }
    } else {
        InlineBudget { per_call_cost: 120, total_bytes: 2400, max_depth: 8 }
    }
}

/// The budget of a recompilation level, or of the level that the switch's value pins. Levels from
/// four on share the largest.
pub fn budget_for_level(level: u8, value: Option<&str>) -> (b: InlineBudget)
    ensures
        exists|pinned: Option<u8>| #[trigger] pins(value, pinned) && b == budget_of(in_force(level, pinned)),
{
    let pinned: Option<u8> = inline_level_override(value);
    assert(pins(value, pinned));
    let row: u8 = match pinned {
        Some(p) => p,
        None => level,
    };
    match row {
        0 | 1 => InlineBudget { per_call_cost: 30, total_bytes: 300, max_depth: 4 },
        2 => InlineBudget { per_call_cost: 50, total_bytes: 600, max_depth: 6 },
        3 => InlineBudget { per_call_cost: 80, total_bytes: 1200, max_depth: 8 },
        _ => InlineBudget { per_call_cost: 120, total_bytes: 2400, max_depth: 8 },
    }
}

/// A switch pins one level: its value alone decides which budget a level has. Without a value, or
/// with one that names none of the four levels, each level has its own.
pub proof fn law_pinned_level_is_unique(value: Option<&str>, one: Option<u8>, other: Option<u8>)
    requires
        pins(value, one),
        pins(value, other),
    ensures
        one == other,
        one matches Some(n) ==> forall|level: u8| budget_of(#[trigger] in_force(level, one)) == budget_of(n),
        one is None ==> forall|level: u8| #[trigger] in_force(level, one) == level,
{
    match value {
        Some(v) => {
            let a = choose|said: Option<u8>| #[trigger] byte_said(v@, said) && one == pinned_by(said);
            let b = choose|said: Option<u8>| #[trigger] byte_said(v@, said) && other == pinned_by(said);
            let s = choose|t: Seq<char>| #[trigger] trim_of(v@, t) && a == byte_number(t);
            let t = choose|t: Seq<char>| #[trigger] trim_of(v@, t) && b == byte_number(t);
            law_trim_is_unique(v@, s, t);
        },
        None => {},
    }
}

/// A higher level never inlines less.
pub proof fn law_budget_grows(low: u8, high: u8)
    requires
        low <= high,
    ensures
        budget_of(low).per_call_cost <= budget_of(high).per_call_cost,
        budget_of(low).total_bytes <= budget_of(high).total_bytes,
        budget_of(low).max_depth <= budget_of(high).max_depth,
{
}

/// Whether an instruction pushes one value and does nothing else.
pub open spec fn plain_push(i: Instr) -> bool {
    match i {
        Instr::PushSelf => true,
        Instr::PushNil => true,
        Instr::PushTrue => true,
        Instr::PushFalse => true,
        Instr::PushSmi(_) => true,
        Instr::PushLiteral(_) => true,
        Instr::PushTemp(_) => true,
        Instr::PushInstvar(_) => true,
        Instr::PushGlobal(_) => true,
        _ => false,
    }
}

/// A body that is a bare return of the receiver, or one push and its return.
pub open spec fn quick_return(code: Seq<Decoded>) -> bool {
    ||| code.len() == 1 && code[0].instr is ReturnSelf
    ||| code.len() == 2 && plain_push(code[0].instr) && code[1].instr is ReturnTos
}

fn is_plain_push(i: Instr) -> (r: bool)
    ensures
        r == plain_push(i),
{
    match i {
        Instr::PushSelf | Instr::PushNil | Instr::PushTrue | Instr::PushFalse => true,
        Instr::PushSmi(_) | Instr::PushLiteral(_) | Instr::PushTemp(_) => true,
        Instr::PushInstvar(_) | Instr::PushGlobal(_) => true,
        _ => false,
    }
}

fn is_quick_return(m: &Method) -> (r: bool)
    ensures
        r == quick_return(m.code@),
{
    let n: usize = m.code.len();
    if n == 1 {
        match m.code[0].instr {
            Instr::ReturnSelf => true,
            _ => false,
        }
    } else if n == 2 {
        if !is_plain_push(m.code[0].instr) {
            return false;
        }
        match m.code[1].instr {
            Instr::ReturnTos => true,
            _ => false,
        }
    } else {
        false
    }
}

/// What inlining a callee costs: four for a primitive, two for a quick return, else its bytes.
pub open spec fn cost_of(m: Method) -> nat {
    if m.primitive != 0 {
        4
    } else if quick_return(m.code@) {
        2
    } else {
        m.spec_bytecode_len()
    }
}

/// What inlining a callee costs.
pub fn inline_cost(callee: &Method) -> (r: u32)
    requires
        callee.spec_bytecode_len() <= u32::MAX,
    ensures
        r == cost_of(*callee),
{
    if callee.primitive != 0 {
        return 4;
    }
    if is_quick_return(callee) {
        return 2;
    }
    callee.bytecode_len()
}

/// No send anywhere in the code.
pub open spec fn leaf(code: Seq<Decoded>) -> bool {
    forall|i: int| 0 <= i < code.len() ==> !((#[trigger] code[i]).instr is Send)
}

/// Whether a method's code has no send.
pub fn is_leaf(method: &Method) -> (r: bool)
    ensures
        r == leaf(method.code@),
{
    let mut i: usize = 0;
    while i < method.code.len()
        invariant
            i <= method.code@.len(),
            forall|k: int| 0 <= k < i ==> !((#[trigger] method.code@[k]).instr is Send),
        decreases method.code@.len() - i,
    {
        match method.code[i].instr {
            Instr::Send { .. } => {
                assert(method.code@[i as int].instr is Send);
                return false;
            },
            _ => {},
        }
        i += 1;
    }
    true
}

/// An instruction that needs machinery which a spliced body lacks.
pub open spec fn blocks_splice(i: Instr) -> bool {
    match i {
        Instr::Send { super_, .. } => super_,
        Instr::PushCtxTemp { .. } => true,
        Instr::StoreCtxTempPop { .. } => true,
        Instr::PushClosure { .. } => true,
        Instr::BlockReturnTos => true,
        Instr::NlrTos => true,
        _ => false,
    }
}

/// A body that can be spliced with its branches and loops.
pub open spec fn spliceable(m: Method) -> bool {
    m.primitive == 0 && !m.has_ctx && !m.is_block && forall|i: int|
        0 <= i < m.code@.len() ==> !blocks_splice((#[trigger] m.code@[i]).instr)
}

fn no_obstacle(m: &Method) -> (r: bool)
    ensures
        r == forall|i: int| 0 <= i < m.code@.len() ==> !blocks_splice((#[trigger] m.code@[i]).instr),
{
    let mut i: usize = 0;
    while i < m.code.len()
        invariant
            i <= m.code@.len(),
            forall|k: int| 0 <= k < i ==> !blocks_splice((#[trigger] m.code@[k]).instr),
        decreases m.code@.len() - i,
    {
        let obstacle: bool = match m.code[i].instr {
            Instr::Send { super_, .. } => super_,
            Instr::PushCtxTemp { .. } | Instr::StoreCtxTempPop { .. } | Instr::PushClosure { .. } => true,
            Instr::BlockReturnTos | Instr::NlrTos => true,
            _ => false,
        };
        if obstacle {
            assert(blocks_splice(m.code@[i as int].instr));
            return false;
        }
        i += 1;
    }
    true
}

/// Whether a body can be spliced as one straight run into a return.
pub fn is_inline_eligible_nonleaf(method: &Method) -> (r: bool)
    ensures
        r == (spliceable(*method) && method.entry_returns),
{
    if method.primitive != 0 || method.has_ctx || method.is_block {
        return false;
    }
    if !method.entry_returns {
        return false;
    }
    no_obstacle(method)
}

/// Whether a body can be spliced with its branches and loops.
pub fn is_inline_eligible_cfg(method: &Method) -> (r: bool)
    ensures
        r == spliceable(*method),
{
    if method.primitive != 0 || method.has_ctx || method.is_block {
        return false;
    }
    no_obstacle(method)
}

/// How a spliced body's receiver is tested.
#[derive(Clone, Copy, Debug, PartialEq, Eq, Structural)]
pub enum GuardKind {
    /// The class is known; no test.
    Unguarded,
    /// The class word is compared.
    KlassTest,
    /// The tag is tested.
    SmiTest,
}

/// One receiver class of a fused comparison.
#[derive(Clone, Copy, Debug, PartialEq, Eq, Structural)]
pub enum PolyCmpLeg {
    /// Both operands are small integers.
    Smi,
    /// The receiver is of this class, whose equality is identity.
    Ident(KlassOop),
}

/// What to do at a send site.
#[derive(Clone, Debug)]
pub enum InlineDecision {
    /// Splice the callee behind the guard.
    Inline { callee: MethodOop, guard: GuardKind },
    /// Splice the dominant case; the others take a real send.
    DominantWithSlowPath { case_klass: KlassOop, case_method: MethodOop, guard: GuardKind },
    /// Splice the one callee of all cases behind a membership test, the hottest class first.
    SameTargetPoly { klasses: Vec<KlassOop>, callee: MethodOop },
    /// Compare raw words, one leg per receiver class.
    PolyCmpFuse { legs: Vec<PolyCmpLeg> },
    /// A real send.
    Call,
    /// An uncommon trap.
    Trap,
}

/// A site that was never taken traps; every other one calls.
pub fn decide(feedback: &SiteFeedback) -> (d: InlineDecision)
    ensures
        *feedback is Untaken ==> d is Trap,
        !(*feedback is Untaken) ==> d is Call,
{
    match feedback {
        SiteFeedback::Untaken => InlineDecision::Trap,
        SiteFeedback::Mono { .. } | SiteFeedback::Poly { .. } | SiteFeedback::Mega => InlineDecision::Call,
    }
}

/// A body that is literally `^self == other`.
pub open spec fn ident_eq(m: Method) -> bool {
    &&& m.primitive == 0
    &&& m.argc == 1
    &&& m.code@.len() >= 4
    &&& m.code@[0].instr is PushSelf
    &&& m.code@[1].instr == Instr::PushTemp(0)
    &&& m.code@[2].instr matches Instr::Send { ic, super_ } && !super_ && ic < m.selectors@.len()
        && m.selectors@[ic as int]@ == "=="@
    &&& m.code@[3].instr is ReturnTos
}

fn method_is_ident_eq(m: &Method) -> (r: bool)
    ensures
        r == ident_eq(*m),
{
    if m.primitive != 0 || m.argc != 1 || m.code.len() < 4 {
        return false;
    }
    match m.code[0].instr {
        Instr::PushSelf => {},
        _ => {
            return false;
        },
    }
    match m.code[1].instr {
        Instr::PushTemp(t) => {
            if t != 0 {
                return false;
            }
        },
        _ => {
            return false;
        },
    }
    let site: usize = match m.code[2].instr {
        Instr::Send { ic, super_ } => {
            if super_ {
                return false;
            }
            ic as usize
        },
        _ => {
            return false;
        },
    };
    match m.code[3].instr {
        Instr::ReturnTos => {},
        _ => {
            return false;
        },
    }
    site < m.selectors.len() && crate::text::text_eq(m.selectors[site].as_str(), "==")
}

/// Samples below which nothing is proven of a site.
pub const DOMINANT_MIN_SAMPLES: u64 = 16;

/// The share, in percent, that a dominant case must reach.
pub const DOMINANT_MIN_SHARE_PCT: u64 = 34;

/// The primitive number of equality on small integers.
pub const SMI_EQ_PRIMITIVE: i64 = 14;

/// A case's count; none is zero.
pub open spec fn count_of(c: FeedbackCase) -> nat {
    match c.count {
        Some(n) => n as nat,
        None => 0,
    }
}

/// The counts of the first `k` cases together.
pub open spec fn total_of(cases: Seq<FeedbackCase>, k: int) -> nat
    decreases k,
{
    if k <= 0 {
        0
    } else {
        total_of(cases, k - 1) + count_of(cases[k - 1])
    }
}

/// All of two or more cases resolve to one method, none of them on small integers, and the site
/// was really taken.
pub open spec fn same_target(cases: Seq<FeedbackCase>, budget: InlineBudget, smi: u64) -> bool {
    let m = cases[0].method;
    &&& cases.len() >= 2
    &&& forall|i: int| 0 <= i < cases.len() ==> (#[trigger] cases[i]).method.oop == m.oop
    &&& forall|i: int| 0 <= i < cases.len() ==> (#[trigger] cases[i]).klass.0 != smi
    &&& total_of(cases, cases.len() as int) >= DOMINANT_MIN_SAMPLES
    &&& m.primitive == 0
    &&& cost_of(m) <= budget.per_call_cost
    &&& leaf(m.code@) || spliceable(m)
}

/// A case whose equality is a comparison of raw words.
pub open spec fn fusible(c: FeedbackCase, smi: u64) -> bool {
    ||| c.klass.0 == smi && c.method.primitive == SMI_EQ_PRIMITIVE && c.method.argc == 1
    ||| ident_eq(c.method)
}

/// Two or more cases, all of them fusible.
pub open spec fn all_fusible(cases: Seq<FeedbackCase>, smi: u64) -> bool {
    cases.len() >= 2 && forall|i: int| 0 <= i < cases.len() ==> fusible(#[trigger] cases[i], smi)
}

/// The first case is frequent enough, in number and in share, and a cheap leaf.
pub open spec fn dominant(cases: Seq<FeedbackCase>, budget: InlineBudget) -> bool {
    let c = cases[0];
    &&& count_of(c) >= DOMINANT_MIN_SAMPLES
    &&& count_of(c) * 100 >= total_of(cases, cases.len() as int) * DOMINANT_MIN_SHARE_PCT
    &&& c.method.primitive == 0
    &&& cost_of(c.method) <= budget.per_call_cost
    &&& leaf(c.method.code@)
}

/// A callee seen alone that is spliced: no primitive, cheap, a leaf or a body that can be spliced.
pub open spec fn mono_inlines(m: Method, budget: InlineBudget) -> bool {
    &&& m.primitive == 0
    &&& cost_of(m) <= budget.per_call_cost
    &&& leaf(m.code@) || spliceable(m)
}

/// A test of the tag for small integers, of the class word for the rest.
pub open spec fn guard_of(k: KlassOop, smi: u64) -> GuardKind {
    if k.0 == smi {
        GuardKind::SmiTest
    } else {
        GuardKind::KlassTest
    }
}

/// The leg of a case.
pub open spec fn leg_of(c: FeedbackCase, smi: u64) -> PolyCmpLeg {
    if c.klass.0 == smi {
        PolyCmpLeg::Smi
    } else {
        PolyCmpLeg::Ident(c.klass)
    }
}

/// The decision on several cases: one callee for all, else a fused comparison, else the dominant
/// case, else a call.
pub open spec fn decided_poly(cases: Seq<FeedbackCase>, budget: InlineBudget, smi: u64, d: InlineDecision) -> bool {
    if cases.len() == 0 {
        d is Call
    } else if same_target(cases, budget, smi) {
        d matches InlineDecision::SameTargetPoly { klasses, callee } && klasses@ == Seq::new(
            cases.len(),
            |i: int| cases[i].klass,
        ) && callee == cases[0].method.oop
    } else if all_fusible(cases, smi) {
        d matches InlineDecision::PolyCmpFuse { legs } && legs@ == Seq::new(
            cases.len(),
            |i: int| leg_of(cases[i], smi),
        )
    } else if dominant(cases, budget) {
        d == (InlineDecision::DominantWithSlowPath {
            case_klass: cases[0].klass,
            case_method: cases[0].method.oop,
            guard: guard_of(cases[0].klass, smi),
        })
    } else {
        d is Call
    }
}

/// The decision at a site under a budget.
pub open spec fn decided(feedback: SiteFeedback, budget: InlineBudget, smi: u64, d: InlineDecision) -> bool {
    match feedback {
        SiteFeedback::Mono { klass, method } => if mono_inlines(method, budget) {
            d == (InlineDecision::Inline { callee: method.oop, guard: guard_of(klass, smi) })
        } else {
            d is Call
        },
        SiteFeedback::Poly { cases } => decided_poly(cases@, budget, smi, d),
        _ => d is Call,
    }
}

/// The sum of the counts, and the share of it that is asked for, fit the integers used.
pub open spec fn counts_fit(cases: Seq<FeedbackCase>) -> bool {
    total_of(cases, cases.len() as int) * DOMINANT_MIN_SHARE_PCT <= u64::MAX
}

/// Every callee's size can be counted, and so can the calls.
pub open spec fn sizes_ok(feedback: SiteFeedback) -> bool {
    match feedback {
        SiteFeedback::Mono { method, .. } => method.spec_bytecode_len() <= u32::MAX,
        SiteFeedback::Poly { cases } => counts_fit(cases@) && forall|i: int|
            0 <= i < cases@.len() ==> (#[trigger] cases@[i]).method.spec_bytecode_len() <= u32::MAX,
        _ => true,
    }
}

proof fn lemma_total_grows(cases: Seq<FeedbackCase>, i: int, k: int)
    requires
        0 <= i <= k,
    ensures
        0 <= total_of(cases, i) <= total_of(cases, k),
    decreases k,
{
    if i < k {
        lemma_total_grows(cases, i, k - 1);
    } else if k > 0 {
        lemma_total_grows(cases, k - 1, k - 1);
    }
}

fn total_count(cases: &Vec<FeedbackCase>) -> (n: u64)
    requires
        counts_fit(cases@),
    ensures
        n == total_of(cases@, cases@.len() as int),
{
    let mut n: u64 = 0;
    let mut i: usize = 0;
    while i < cases.len()
        invariant
            i <= cases@.len(),
            counts_fit(cases@),
            n == total_of(cases@, i as int),
        decreases cases@.len() - i,
    {
        proof {
            lemma_total_grows(cases@, i + 1, cases@.len() as int);
        }
        let c: u64 = match cases[i].count {
            Some(k) => k as u64,
            None => 0,
        };
        n += c;
        i += 1;
    }
    n
}

fn all_same_target(cases: &Vec<FeedbackCase>, smi: u64) -> (r: bool)
    requires
        cases@.len() > 0,
    ensures
        r == forall|i: int|
            0 <= i < cases@.len() ==> (#[trigger] cases@[i]).method.oop == cases@[0].method.oop && cases@[i].klass.0 != smi,
{
    let mut i: usize = 0;
    while i < cases.len()
        invariant
            i <= cases@.len(),
            cases@.len() > 0,
            forall|k: int|
                0 <= k < i ==> (#[trigger] cases@[k]).method.oop == cases@[0].method.oop && cases@[k].klass.0 != smi,
        decreases cases@.len() - i,
    {
        if cases[i].method.oop != cases[0].method.oop || cases[i].klass.0 == smi {
            assert(cases@[i as int].method.oop != cases@[0].method.oop || cases@[i as int].klass.0 == smi);
            return false;
        }
        i += 1;
    }
    true
}

fn every_fusible(cases: &Vec<FeedbackCase>, smi: u64) -> (r: bool)
    ensures
        r == all_fusible(cases@, smi),
{
    if cases.len() < 2 {
        return false;
    }
    let mut i: usize = 0;
    while i < cases.len()
        invariant
            i <= cases@.len(),
            forall|k: int| 0 <= k < i ==> fusible(#[trigger] cases@[k], smi),
        decreases cases@.len() - i,
    {
        let c: &FeedbackCase = &cases[i];
        let smi_arm: bool = c.klass.0 == smi && c.method.primitive == SMI_EQ_PRIMITIVE && c.method.argc == 1;
        if !smi_arm && !method_is_ident_eq(&c.method) {
            assert(!fusible(cases@[i as int], smi));
            return false;
        }
        i += 1;
    }
    true
}

fn guard_for(k: KlassOop, smi: u64) -> (g: GuardKind)
    ensures
        g == guard_of(k, smi),
{
    if k.0 == smi {
        GuardKind::SmiTest
    } else {
        GuardKind::KlassTest
    }
}

fn decide_poly(cases: &Vec<FeedbackCase>, budget: &InlineBudget, smi: u64) -> (d: InlineDecision)
    requires
        counts_fit(cases@),
        forall|i: int| 0 <= i < cases@.len() ==> (#[trigger] cases@[i]).method.spec_bytecode_len() <= u32::MAX,
    ensures
        decided_poly(cases@, *budget, smi, d),
{
    if cases.len() == 0 {
        return InlineDecision::Call;
    }
    let total: u64 = total_count(cases);
    let first: &FeedbackCase = &cases[0];
    assert(cases@[0].method.spec_bytecode_len() <= u32::MAX);
    if cases.len() >= 2 && all_same_target(cases, smi) && total >= DOMINANT_MIN_SAMPLES && first.method.primitive == 0
        && inline_cost(&first.method) <= budget.per_call_cost && (is_leaf(&first.method) || is_inline_eligible_cfg(
        &first.method,
    )) {
        let mut klasses: Vec<KlassOop> = Vec::new();
        let mut i: usize = 0;
        while i < cases.len()
            invariant
                i <= cases@.len(),
                klasses@ == Seq::new(i as nat, |i: int| cases@[i].klass),
            decreases cases@.len() - i,
        {
            klasses.push(cases[i].klass);
            i += 1;
        }
        return InlineDecision::SameTargetPoly { klasses, callee: first.method.oop };
    }
    if every_fusible(cases, smi) {
        let mut legs: Vec<PolyCmpLeg> = Vec::new();
        let mut i: usize = 0;
        while i < cases.len()
            invariant
                i <= cases@.len(),
                legs@ == Seq::new(i as nat, |i: int| leg_of(cases@[i], smi)),
            decreases cases@.len() - i,
        {
            let k: KlassOop = cases[i].klass;
            legs.push(
                if k.0 == smi {
                    PolyCmpLeg::Smi
                } else {
                    PolyCmpLeg::Ident(k)
                },
            );
            i += 1;
        }
        return InlineDecision::PolyCmpFuse { legs };
    }
    let dom: u64 = match first.count {
        Some(n) => n as u64,
        None => 0,
    };
    let proven: bool = dom >= DOMINANT_MIN_SAMPLES && dom * 100 >= total * DOMINANT_MIN_SHARE_PCT;
    if proven && first.method.primitive == 0 && inline_cost(&first.method) <= budget.per_call_cost && is_leaf(
        &first.method,
    ) {
        InlineDecision::DominantWithSlowPath {
            case_klass: first.klass,
            case_method: first.method.oop,
            guard: guard_for(first.klass, smi),
        }
    } else {
        InlineDecision::Call
    }
}

/// Decides at a send site under a budget. `smi_klass_bits` is the class of small integers.
pub fn decide_with_budget(feedback: &SiteFeedback, budget: &InlineBudget, smi_klass_bits: u64) -> (d: InlineDecision)
    requires
        sizes_ok(*feedback),
    ensures
        decided(*feedback, *budget, smi_klass_bits, d),
{
    match feedback {
        SiteFeedback::Mono { klass, method } => {
            let inlinable: bool = method.primitive == 0 && inline_cost(method) <= budget.per_call_cost && (is_leaf(
                method,
            ) || is_inline_eligible_nonleaf(method) || is_inline_eligible_cfg(method));
            if inlinable {
                InlineDecision::Inline { callee: method.oop, guard: guard_for(*klass, smi_klass_bits) }
            } else {
                InlineDecision::Call
            }
        },
        SiteFeedback::Poly { cases } => decide_poly(cases, budget, smi_klass_bits),
        SiteFeedback::Untaken | SiteFeedback::Mega => InlineDecision::Call,
    }
}

/// A primitive's fallback code is never spliced, and no decision under a budget traps.
pub proof fn law_primitives_are_not_spliced(feedback: SiteFeedback, budget: InlineBudget, smi: u64, d: InlineDecision)
    requires
        decided(feedback, budget, smi, d),
    ensures
        !(d is Trap),
        d matches InlineDecision::Inline { .. } ==> (feedback matches SiteFeedback::Mono { method, .. }
            && method.primitive == 0),
        d matches InlineDecision::SameTargetPoly { .. } ==> (feedback matches SiteFeedback::Poly { cases }
            && cases@[0].method.primitive == 0),
        d matches InlineDecision::DominantWithSlowPath { .. } ==> (feedback matches SiteFeedback::Poly { cases }
            && cases@[0].method.primitive == 0),
{
}

/// What is spliced at a level is spliced at every higher one, where one callee was seen.
pub proof fn law_inlining_grows_with_level(m: Method, low: u8, high: u8)
    requires
        low <= high,
        mono_inlines(m, budget_of(low)),
    ensures
        mono_inlines(m, budget_of(high)),
{
    law_budget_grows(low, high);
}

/// The budget of a level, in numbers: levels count from one to four. The bytes double from level to
/// level.
pub proof fn law_budget_by_level(level: u8)
    ensures
        ({
            let l = if level < 1 {
                1int
            } else if level > 4 {
                4
            } else {
                level as int
            };
            let b = budget_of(level);
            &&& b.per_call_cost == 5 * (l * l + l + 4)
            &&& b.total_bytes == 300 * (if l == 1 {
                1int
            } else if l == 2 {
                2
            } else if l == 3 {
                4
            } else {
                8
            })
            &&& b.max_depth == if 2 * l + 2 < 8 {
                2 * l + 2
            } else {
                8
            }
        }),
{
    assert(1int * 1 == 1 && 2int * 2 == 4 && 3int * 3 == 9 && 4int * 4 == 16) by (nonlinear_arith);
}

proof fn lemma_bytes_are_summed(code: Seq<Decoded>, k: int)
    requires
        0 <= k <= code.len(),
    ensures
        bytes_of(code, k) == Seq::new(k as nat, |i: int| code[i].len as int).fold_left(
            0int,
            |a: int, b: int| a + b,
        ),
    decreases k,
{
    let s = Seq::new(k as nat, |i: int| code[i].len as int);
    if k > 0 {
        lemma_bytes_are_summed(code, k - 1);
        assert(s.drop_last() =~= Seq::new((k - 1) as nat, |i: int| code[i].len as int));
    }
}

proof fn lemma_counts_are_summed(cases: Seq<FeedbackCase>, k: int)
    requires
        0 <= k <= cases.len(),
    ensures
        total_of(cases, k) == Seq::new(
            k as nat,
            |i: int|
                match cases[i].count {
                    Some(n) => n as int,
                    None => 0,
                },
        ).fold_left(0int, |a: int, b: int| a + b),
    decreases k,
{
    let f = |i: int|
        match cases[i].count {
            Some(n) => n as int,
            None => 0,
        };
    let s = Seq::new(k as nat, f);
    if k > 0 {
        lemma_counts_are_summed(cases, k - 1);
        assert(s.drop_last() =~= Seq::new((k - 1) as nat, f));
    }
}

/// What a callee costs: four where it is a primitive; two where its whole code returns the receiver,
/// or pushes the receiver, a constant, a variable or a global and returns it; else as many as its
/// instructions have bytes.
pub proof fn law_cost(m: Method)
    ensures
        cost_of(m) == if m.primitive != 0 {
            4
        } else if m.code@.len() == 1 && m.code@[0].instr is ReturnSelf {
            2
        } else if m.code@.len() == 2 && m.code@[1].instr is ReturnTos && ({
            let i = m.code@[0].instr;
            i is PushSelf || i is PushNil || i is PushTrue || i is PushFalse || i is PushSmi || i is PushLiteral
                || i is PushTemp || i is PushInstvar || i is PushGlobal
        }) {
            2
        } else {
            Seq::new(m.code@.len(), |i: int| m.code@[i].len as int).fold_left(0int, |a: int, b: int| a + b)
        },
{
    lemma_bytes_are_summed(m.code@, m.code@.len() as int);
}

/// A callee that was seen alone is spliced exactly where it is no primitive, costs no more than the
/// budget gives a call, and either sends nothing, or has no context, is no block, and none of its
/// instructions creates a closure, reads or writes a context slot, returns from a block or out of one,
/// or sends to super. Its receiver is tested by the tag where the class is that of small integers, by
/// the class word elsewhere. Whatever is not spliced is called.
pub proof fn law_lone_callee(klass: KlassOop, m: Method, budget: InlineBudget, smi: u64, d: InlineDecision)
    requires
        decided(SiteFeedback::Mono { klass, method: m }, budget, smi, d),
    ensures
        d is Inline || d is Call,
        d is Inline <==> {
            &&& m.primitive == 0
            &&& cost_of(m) <= budget.per_call_cost
            &&& (forall|i: int| 0 <= i < m.code@.len() ==> (#[trigger] m.code@[i]).instr !is Send) || (!m.has_ctx && !m.is_block
                && forall|i: int|
                0 <= i < m.code@.len() ==> ({
                    let x = (#[trigger] m.code@[i]).instr;
                    &&& x !is PushClosure
                    &&& x !is PushCtxTemp
                    &&& x !is StoreCtxTempPop
                    &&& x !is BlockReturnTos
                    &&& x !is NlrTos
                    &&& !(x matches Instr::Send { super_, .. } && super_)
                }))
        },
        d matches InlineDecision::Inline { callee, guard } ==> callee == m.oop && (guard is SmiTest <==> klass.0 == smi) && (
        guard is KlassTest <==> klass.0 != smi),
{
    lemma_fit(m);
}

proof fn lemma_fit(m: Method)
    ensures
        leaf(m.code@) || spliceable(m) <==> {
            ||| forall|i: int| 0 <= i < m.code@.len() ==> (#[trigger] m.code@[i]).instr !is Send
            ||| m.primitive == 0 && !m.has_ctx && !m.is_block && forall|i: int|
                0 <= i < m.code@.len() ==> ({
                    let x = (#[trigger] m.code@[i]).instr;
                    &&& x !is PushClosure
                    &&& x !is PushCtxTemp
                    &&& x !is StoreCtxTempPop
                    &&& x !is BlockReturnTos
                    &&& x !is NlrTos
                    &&& !(x matches Instr::Send { super_, .. } && super_)
                })
        },
{
}

/// Several cases are spliced as one exactly where there are two or more, all of them the same method,
/// none on small integers, seen sixteen times together, and that method would be spliced alone. The
/// classes are listed as they stand.
pub proof fn law_one_callee_for_all(cases: Vec<FeedbackCase>, budget: InlineBudget, smi: u64, d: InlineDecision)
    requires
        decided(SiteFeedback::Poly { cases }, budget, smi, d),
    ensures
        d is SameTargetPoly <==> {
            &&& cases@.len() >= 2
            &&& forall|i: int| 0 <= i < cases@.len() ==> (#[trigger] cases@[i]).method.oop == cases@[0].method.oop
            &&& forall|i: int| 0 <= i < cases@.len() ==> (#[trigger] cases@[i]).klass.0 != smi
            &&& Seq::new(
                cases@.len(),
                |i: int|
                    match cases@[i].count {
                        Some(n) => n as int,
                        None => 0,
                    },
            ).fold_left(0int, |a: int, b: int| a + b) >= 16
            &&& cases@[0].method.primitive == 0
            &&& cost_of(cases@[0].method) <= budget.per_call_cost
            &&& ({
                let m = cases@[0].method;
                (forall|i: int| 0 <= i < m.code@.len() ==> (#[trigger] m.code@[i]).instr !is Send) || (!m.has_ctx && !m.is_block
                && forall|i: int|
                0 <= i < m.code@.len() ==> ({
                    let x = (#[trigger] m.code@[i]).instr;
                    &&& x !is PushClosure
                    &&& x !is PushCtxTemp
                    &&& x !is StoreCtxTempPop
                    &&& x !is BlockReturnTos
                    &&& x !is NlrTos
                    &&& !(x matches Instr::Send { super_, .. } && super_)
                }))
            })
        },
        d matches InlineDecision::SameTargetPoly { klasses, callee } ==> {
            &&& callee == cases@[0].method.oop
            &&& klasses@.len() == cases@.len()
            &&& forall|i: int| 0 <= i < cases@.len() ==> #[trigger] klasses@[i] == cases@[i].klass
        },
{
    lemma_counts_are_summed(cases@, cases@.len() as int);
    if cases@.len() > 0 {
        lemma_fit(cases@[0].method);
    }
}

/// A comparison is fused exactly where no callee serves all cases, and each of two or more cases is
/// equality of small integers, or a method whose code is `^self == other`. A leg for small integers
/// stands for a case on small integers, a leg for a class for each other one.
pub proof fn law_fused_comparison(cases: Vec<FeedbackCase>, budget: InlineBudget, smi: u64, d: InlineDecision)
    requires
        decided(SiteFeedback::Poly { cases }, budget, smi, d),
    ensures
        d is PolyCmpFuse <==> {
            &&& d !is SameTargetPoly
            &&& cases@.len() >= 2
            &&& forall|i: int|
                0 <= i < cases@.len() ==> ({
                    let c = #[trigger] cases@[i];
                    let m = c.method;
                    ||| c.klass.0 == smi && m.primitive == 14 && m.argc == 1
                    ||| m.primitive == 0 && m.argc == 1 && m.code@.len() >= 4 && m.code@[0].instr == Instr::PushSelf
                        && m.code@[1].instr == Instr::PushTemp(0) && (m.code@[2].instr matches Instr::Send { ic, super_ }
                        && !super_ && ic < m.selectors@.len() && m.selectors@[ic as int]@ == "=="@) && m.code@[3].instr
                        == Instr::ReturnTos
                })
        },
        d matches InlineDecision::PolyCmpFuse { legs } ==> legs@.len() == cases@.len() && forall|i: int|
            0 <= i < cases@.len() ==> #[trigger] legs@[i] == if cases@[i].klass.0 == smi {
                PolyCmpLeg::Smi
            } else {
                PolyCmpLeg::Ident(cases@[i].klass)
            },
{
    assert(forall|i: int|
        0 <= i < cases@.len() ==> (fusible(#[trigger] cases@[i], smi) <==> ({
            let c = cases@[i];
            let m = c.method;
            ||| c.klass.0 == smi && m.primitive == 14 && m.argc == 1
            ||| m.primitive == 0 && m.argc == 1 && m.code@.len() >= 4 && m.code@[0].instr == Instr::PushSelf
                && m.code@[1].instr == Instr::PushTemp(0) && (m.code@[2].instr matches Instr::Send { ic, super_ }
                && !super_ && ic < m.selectors@.len() && m.selectors@[ic as int]@ == "=="@) && m.code@[3].instr
                == Instr::ReturnTos
        })));
}

/// The first case alone is spliced exactly where neither of the above applies, it was seen sixteen
/// times and in at least 34 of 100 of all calls, and its method is no primitive, cheap enough and
/// sends nothing. The rest is called.
pub proof fn law_dominant_case(cases: Vec<FeedbackCase>, budget: InlineBudget, smi: u64, d: InlineDecision)
    requires
        decided(SiteFeedback::Poly { cases }, budget, smi, d),
    ensures
        d is SameTargetPoly || d is PolyCmpFuse || d is DominantWithSlowPath || d is Call,
        d is DominantWithSlowPath <==> {
            let n = match cases@[0].count {
                Some(n) => n as int,
                None => 0,
            };
            let all = Seq::new(
                cases@.len(),
                |i: int|
                    match cases@[i].count {
                        Some(n) => n as int,
                        None => 0,
                    },
            ).fold_left(0int, |a: int, b: int| a + b);
            let m = cases@[0].method;
            &&& d !is SameTargetPoly
            &&& d !is PolyCmpFuse
            &&& cases@.len() > 0
            &&& n >= 16
            &&& 100 * n >= 34 * all
            &&& m.primitive == 0
            &&& cost_of(m) <= budget.per_call_cost
            &&& forall|i: int| 0 <= i < m.code@.len() ==> (#[trigger] m.code@[i]).instr !is Send
        },
        d matches InlineDecision::DominantWithSlowPath { case_klass, case_method, guard } ==> {
            &&& case_klass == cases@[0].klass
            &&& case_method == cases@[0].method.oop
            &&& guard is SmiTest <==> case_klass.0 == smi
            &&& guard is KlassTest <==> case_klass.0 != smi
        },
{
    lemma_counts_are_summed(cases@, cases@.len() as int);
}

/// What a body must lack to be spliced with its branches, instruction by instruction; as one straight
/// run, its entry must end in a return too.
pub proof fn law_spliceable_body(m: Method)
    ensures
        spliceable(m) <==> m.primitive == 0 && !m.has_ctx && !m.is_block && forall|i: int|
            0 <= i < m.code@.len() ==> ({
                let x = (#[trigger] m.code@[i]).instr;
                &&& x !is PushClosure
                &&& x !is PushCtxTemp
                &&& x !is StoreCtxTempPop
                &&& x !is BlockReturnTos
                &&& x !is NlrTos
                &&& !(x matches Instr::Send { super_, .. } && super_)
            }),
{
}

} // verus!
