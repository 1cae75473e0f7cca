use macvm::bytecode::Instr;
use macvm::compiler::feedback::{Decoded, FeedbackCase, Method, SiteFeedback};
use macvm::compiler::inline::{
    budget_for_level, decide, decide_with_budget, inline_cost, inline_level_override, is_inline_eligible_cfg,
    is_inline_eligible_nonleaf, is_leaf, GuardKind, InlineBudget, InlineDecision, PolyCmpLeg,
};
use macvm::oops::{KlassOop, MethodOop};

const SMI_KLASS: KlassOop = KlassOop(0x1001);
const OBJECT_KLASS: KlassOop = KlassOop(0x2001);
const SYMBOL_KLASS: KlassOop = KlassOop(0x3001);
const STRING_KLASS: KlassOop = KlassOop(0x4001);

fn method(oop: u64, argc: usize, code: &[(Instr, u32)], selectors: &[&str]) -> Method {
    let returns = match code.last() {
        Some((i, _)) => matches!(i, Instr::ReturnSelf | Instr::ReturnTos),
        None => false,
    };
    Method {
        oop: MethodOop(oop),
        primitive: 0,
        argc,
        has_ctx: false,
        is_block: false,
        code: code.iter().map(|(instr, len)| Decoded { instr: *instr, len: *len }).collect(),
        selectors: selectors.iter().map(|s| s.to_string()).collect(),
        entry_returns: returns,
    }
}

fn ret_self(oop: u64) -> Method {
    method(oop, 0, &[(Instr::ReturnSelf, 1)], &[])
}

fn a_klass_and_method() -> (KlassOop, Method) {
    (SMI_KLASS, ret_self(0x5001))
}

fn ident_eq_method() -> Method {
    method(
        0x6001,
        1,
        &[
            (Instr::PushSelf, 1),
            (Instr::PushTemp(0), 2),
            (Instr::Send { ic: 0, super_: false }, 2),
            (Instr::ReturnTos, 1),
        ],
        &["=="],
    )
}

fn smi_eq_method() -> Method {
    let mut m = method(0x7001, 1, &[(Instr::ReturnSelf, 1)], &[]);
    m.primitive = 14;
    m
}

fn case(count: u32) -> FeedbackCase {
    let (klass, method) = a_klass_and_method();
    FeedbackCase { klass, method, count: Some(count) }
}

#[test]
fn untaken_traps() {
    assert!(matches!(decide(&SiteFeedback::Untaken), InlineDecision::Trap));
}

#[test]
fn mono_calls() {
    let (klass, method) = a_klass_and_method();
    assert!(matches!(decide(&SiteFeedback::Mono { klass, method }), InlineDecision::Call));
}

#[test]
fn poly_calls() {
    let (klass, method) = a_klass_and_method();
    let fb = SiteFeedback::Poly { cases: vec![FeedbackCase { klass, method, count: None }] };
    assert!(matches!(decide(&fb), InlineDecision::Call));
}

#[test]
fn mega_calls() {
    assert!(matches!(decide(&SiteFeedback::Mega), InlineDecision::Call));
}

#[test]
fn poly_ident_cmp_fuses_smi_plus_identity_arm() {
    let budget = budget_for_level(1, None);
    let fb = SiteFeedback::Poly {
        cases: vec![
            FeedbackCase { klass: SMI_KLASS, method: smi_eq_method(), count: Some(3) },
            FeedbackCase { klass: SYMBOL_KLASS, method: ident_eq_method(), count: Some(1) },
        ],
    };
    match decide_with_budget(&fb, &budget, SMI_KLASS.0) {
        InlineDecision::PolyCmpFuse { legs } => {
            assert_eq!(
                legs,
                vec![PolyCmpLeg::Smi, PolyCmpLeg::Ident(SYMBOL_KLASS)],
                "legs must mirror the cases' hottest-first order"
            );
        }
        other => panic!("expected PolyCmpFuse, got {other:?}"),
    }
}

#[test]
fn poly_ident_cmp_fires_without_count_floor() {
    let budget = budget_for_level(1, None);
    let fb = SiteFeedback::Poly {
        cases: vec![
            FeedbackCase { klass: SMI_KLASS, method: smi_eq_method(), count: Some(1) },
            FeedbackCase { klass: SYMBOL_KLASS, method: ident_eq_method(), count: Some(0) },
        ],
    };
    assert!(matches!(
        decide_with_budget(&fb, &budget, SMI_KLASS.0),
        InlineDecision::PolyCmpFuse { .. }
    ));
}

#[test]
fn poly_ident_cmp_declines_value_eq_arm() {
    let budget = budget_for_level(1, None);
    let value_m = method(0x8001, 1, &[(Instr::ReturnSelf, 1)], &[]);
    let fb = SiteFeedback::Poly {
        cases: vec![
            FeedbackCase { klass: SMI_KLASS, method: smi_eq_method(), count: Some(3) },
            FeedbackCase { klass: STRING_KLASS, method: value_m, count: Some(1) },
        ],
    };
    assert!(!matches!(
        decide_with_budget(&fb, &budget, SMI_KLASS.0),
        InlineDecision::PolyCmpFuse { .. }
    ));
}

#[test]
fn poly_dominant_proven_by_counts_inlines_at_arity_three() {
    let fb = SiteFeedback::Poly { cases: vec![case(100), case(10), case(5)] };
    assert!(matches!(
        decide_with_budget(&fb, &budget_for_level(1, None), SMI_KLASS.0),
        InlineDecision::DominantWithSlowPath { .. }
    ));
}

#[test]
fn poly_flat_counts_call() {
    let fb = SiteFeedback::Poly { cases: vec![case(20), case(20), case(20), case(20)] };
    assert!(matches!(
        decide_with_budget(&fb, &budget_for_level(1, None), SMI_KLASS.0),
        InlineDecision::Call
    ));
}

#[test]
fn poly_same_target_flat_inlines_membership() {
    let fb = SiteFeedback::Poly { cases: vec![case(10), case(10), case(10), case(10)] };
    let not_smi_bits = 0u64;
    match decide_with_budget(&fb, &budget_for_level(1, None), not_smi_bits) {
        InlineDecision::SameTargetPoly { klasses, callee } => {
            assert_eq!(klasses.len(), 4);
            assert_eq!(callee, a_klass_and_method().1.oop);
        }
        other => panic!("expected SameTargetPoly, got {other:?}"),
    }
}

#[test]
fn poly_same_target_with_smi_case_calls() {
    let fb = SiteFeedback::Poly { cases: vec![case(10), case(10), case(10), case(10)] };
    assert!(matches!(
        decide_with_budget(&fb, &budget_for_level(1, None), SMI_KLASS.0),
        InlineDecision::Call
    ));
}

#[test]
fn poly_same_target_under_sampled_calls() {
    let fb = SiteFeedback::Poly { cases: vec![case(3), case(3)] };
    assert!(matches!(decide_with_budget(&fb, &budget_for_level(1, None), 0u64), InlineDecision::Call));
}

#[test]
fn poly_under_sampled_calls() {
    let fb = SiteFeedback::Poly { cases: vec![case(8), case(2)] };
    assert!(matches!(
        decide_with_budget(&fb, &budget_for_level(1, None), SMI_KLASS.0),
        InlineDecision::Call
    ));
}

#[test]
fn budget_grows_with_level() {
    assert_eq!(budget_for_level(1, None).per_call_cost, 30);
    assert_eq!(budget_for_level(0, None).per_call_cost, 30, "level 0 clamps to 1");
    assert!(budget_for_level(2, None).per_call_cost > budget_for_level(1, None).per_call_cost);
    assert!(budget_for_level(3, None).total_bytes > budget_for_level(2, None).total_bytes);
    assert_eq!(budget_for_level(4, None), budget_for_level(9, None), "level >= 4 clamps");
}

fn general() -> Method {
    method(
        0x9001,
        1,
        &[
            (Instr::PushSelf, 1),
            (Instr::PushTemp(0), 2),
            (Instr::PushTemp(0), 2),
            (Instr::Pop, 1),
            (Instr::Pop, 1),
            (Instr::ReturnSelf, 1),
        ],
        &[],
    )
}

#[test]
fn cost_primitive_is_flat_four() {
    let mut m = method(
        0x9101,
        1,
        &[(Instr::PushSelf, 1), (Instr::PushTemp(0), 2), (Instr::ReturnTos, 1)],
        &[],
    );
    m.primitive = 1;
    assert_eq!(inline_cost(&m), 4);
}

#[test]
fn cost_accessor_and_quick_return_are_two() {
    assert_eq!(inline_cost(&ret_self(0x9201)), 2);
    let get_arg = method(0x9301, 1, &[(Instr::PushTemp(0), 2), (Instr::ReturnTos, 1)], &[]);
    assert_eq!(inline_cost(&get_arg), 2);
}

fn calls_foo() -> Method {
    method(
        0x9401,
        0,
        &[(Instr::PushSelf, 1), (Instr::Send { ic: 0, super_: false }, 2), (Instr::ReturnTos, 1)],
        &["foo"],
    )
}

fn calls_super_foo() -> Method {
    method(
        0x9501,
        0,
        &[(Instr::PushSelf, 1), (Instr::Send { ic: 0, super_: true }, 2), (Instr::ReturnTos, 1)],
        &["foo"],
    )
}

#[test]
fn is_leaf_detects_sends() {
    assert!(is_leaf(&method(0x9601, 0, &[(Instr::PushInstvar(0), 2), (Instr::ReturnTos, 1)], &[])));
    assert!(is_leaf(&ret_self(0x9701)));
    let stash = method(
        0x9801,
        1,
        &[
            (Instr::PushTemp(0), 2),
            (Instr::StoreTempPop(1), 2),
            (Instr::PushTemp(1), 2),
            (Instr::ReturnTos, 1),
        ],
        &[],
    );
    assert!(is_leaf(&stash));
    assert!(!is_leaf(&calls_foo()));
}

#[test]
fn decide_with_budget_inlines_cheap_leaves() {
    let budget = budget_for_level(1, None);
    let smi_bits = SMI_KLASS.0;
    let accessor = method(0x9901, 0, &[(Instr::PushInstvar(0), 2), (Instr::ReturnTos, 1)], &[]);
    match decide_with_budget(
        &SiteFeedback::Mono { klass: OBJECT_KLASS, method: accessor.clone() },
        &budget,
        smi_bits,
    ) {
        InlineDecision::Inline { callee, guard } => {
            assert_eq!(callee, accessor.oop);
            assert_eq!(guard, GuardKind::KlassTest, "non-smi klass → KlassTest");
        }
        other => panic!("expected Inline, got {other:?}"),
    }
    match decide_with_budget(
        &SiteFeedback::Mono { klass: SMI_KLASS, method: accessor },
        &budget,
        smi_bits,
    ) {
        InlineDecision::Inline { guard, .. } => {
            assert_eq!(guard, GuardKind::SmiTest, "smi klass → SmiTest");
        }
        other => panic!("expected Inline, got {other:?}"),
    }
    assert!(matches!(
        decide_with_budget(
            &SiteFeedback::Mono { klass: OBJECT_KLASS, method: calls_foo() },
            &budget,
            smi_bits,
        ),
        InlineDecision::Inline { .. }
    ));
    assert!(matches!(
        decide_with_budget(
            &SiteFeedback::Mono { klass: OBJECT_KLASS, method: calls_super_foo() },
            &budget,
            smi_bits,
        ),
        InlineDecision::Call
    ));
    let tiny = InlineBudget { per_call_cost: 1, total_bytes: 300, max_depth: 4 };
    assert!(matches!(
        decide_with_budget(
            &SiteFeedback::Mono { klass: OBJECT_KLASS, method: general() },
            &tiny,
            smi_bits,
        ),
        InlineDecision::Call
    ));
    assert!(matches!(
        decide_with_budget(&SiteFeedback::Untaken, &budget, smi_bits),
        InlineDecision::Call
    ));
    assert!(matches!(
        decide_with_budget(&SiteFeedback::Mega, &budget, smi_bits),
        InlineDecision::Call
    ));
}

#[test]
fn cost_general_is_bytecode_len() {
    let m = general();
    assert_eq!(inline_cost(&m), m.bytecode_len());
    assert_eq!(m.bytecode_len(), 8);
    assert!(inline_cost(&m) > 2, "a general body costs more than a quick return");
}

#[test]
fn splicing_refuses_supers_contexts_and_primitives() {
    assert!(is_inline_eligible_nonleaf(&calls_foo()));
    assert!(is_inline_eligible_cfg(&calls_foo()));
    assert!(!is_inline_eligible_nonleaf(&calls_super_foo()));
    let mut m = calls_foo();
    m.has_ctx = true;
    assert!(!is_inline_eligible_cfg(&m));
    let mut m = calls_foo();
    m.primitive = 7;
    assert!(!is_inline_eligible_cfg(&m));
    let mut m = calls_foo();
    m.entry_returns = false;
    assert!(!is_inline_eligible_nonleaf(&m));
    assert!(is_inline_eligible_cfg(&m));
}

#[test]
fn a_switch_pins_the_level() {
    assert_eq!(inline_level_override(None), None);
    assert_eq!(inline_level_override(Some("3")), Some(3));
    assert_eq!(inline_level_override(Some(" 2 ")), Some(2));
    assert_eq!(inline_level_override(Some("0")), None);
    assert_eq!(inline_level_override(Some("5")), None);
    assert_eq!(inline_level_override(Some("x")), None);
    assert_eq!(budget_for_level(2, Some("4")), budget_for_level(4, None));
    assert_eq!(budget_for_level(4, Some(" 1\n")), budget_for_level(1, None));
    assert_eq!(budget_for_level(2, Some("5")), budget_for_level(2, None));
    assert_eq!(budget_for_level(3, Some("")), budget_for_level(3, None));
}
