use reactive::context::{provide_context, use_context};
use reactive::effect::create_effect;
use reactive::handles::Fault;
use reactive::memo::{create_memo, memo_get};
use reactive::scope::create_scope;
use reactive::signal::{create_signal, signal_get, signal_set};
use reactive::state::Expr;
use reactive::value::{Value, ValueKind};

#[test]
fn effect_fires_on_create_and_on_write() {
    // root scope; signal `count` starts at 0; an effect logs `count`
    let (mut rt, root, d) = create_scope();
    let count = create_signal(&mut rt, root, Value::Int(0)).unwrap();
    let eff = create_effect(&mut rt, root, Expr::ReadSignal(count)).unwrap();
    // fires once immediately, logging 0
    assert_eq!(rt.effect_runs(eff).unwrap(), 1);
    assert!(matches!(rt.effect_run_at(eff, 0).unwrap(), Value::Int(0)));
    // one write causes exactly one more firing, logging the new value
    signal_set(&mut rt, count, Value::Int(5)).unwrap();
    assert_eq!(rt.effect_runs(eff).unwrap(), 2);
    assert!(matches!(rt.effect_run_at(eff, 1).unwrap(), Value::Int(5)));
    d.dispose(&mut rt);
}

#[test]
fn duplicate_reads_register_once() {
    // an effect reading the same signal twice re-runs once per write
    let (mut rt, root, d) = create_scope();
    let s = create_signal(&mut rt, root, Value::Int(3)).unwrap();
    let body = Expr::Add(
        Box::new(Expr::ReadSignal(s)),
        Box::new(Expr::ReadSignal(s)),
    );
    let eff = create_effect(&mut rt, root, body).unwrap();
    assert_eq!(rt.effect_runs(eff).unwrap(), 1);
    assert!(matches!(rt.effect_run_at(eff, 0).unwrap(), Value::Int(6)));
    signal_set(&mut rt, s, Value::Int(10)).unwrap();
    assert_eq!(rt.effect_runs(eff).unwrap(), 2);
    assert!(matches!(rt.effect_run_at(eff, 1).unwrap(), Value::Int(20)));
    d.dispose(&mut rt);
}

#[test]
fn untracked_read_registers_nothing() {
    // a read with an empty tracking stack registers no dependency
    let (mut rt, root, d) = create_scope();
    let s = create_signal(&mut rt, root, Value::Int(1)).unwrap();
    let got = signal_get(&mut rt, s).unwrap();
    assert!(matches!(got, Value::Int(1)));
    // a later write re-runs nothing: no computation was ever registered
    signal_set(&mut rt, s, Value::Int(2)).unwrap();
    assert!(matches!(signal_get(&mut rt, s).unwrap(), Value::Int(2)));
    d.dispose(&mut rt);
}

#[test]
fn run_untracked_suppresses_registration_inside_tracked_body() {
    // the effect reads y (tracked) and x (inside an untracked region)
    let (mut rt, root, d) = create_scope();
    let x = create_signal(&mut rt, root, Value::Int(100)).unwrap();
    let y = create_signal(&mut rt, root, Value::Int(1)).unwrap();
    let body = Expr::Add(
        Box::new(Expr::ReadSignal(y)),
        Box::new(Expr::Untracked(Box::new(Expr::ReadSignal(x)))),
    );
    let eff = create_effect(&mut rt, root, body).unwrap();
    assert_eq!(rt.effect_runs(eff).unwrap(), 1);
    assert!(matches!(rt.effect_run_at(eff, 0).unwrap(), Value::Int(101)));
    // writing x must not re-run the effect: its read was untracked
    signal_set(&mut rt, x, Value::Int(500)).unwrap();
    assert_eq!(rt.effect_runs(eff).unwrap(), 1);
    // the dependency on y, established before the untracked region, holds
    signal_set(&mut rt, y, Value::Int(2)).unwrap();
    assert_eq!(rt.effect_runs(eff).unwrap(), 2);
    assert!(matches!(rt.effect_run_at(eff, 1).unwrap(), Value::Int(502)));
    d.dispose(&mut rt);
}

#[test]
fn untrack_returns_value_without_state_change() {
    let (mut rt, root, d) = create_scope();
    let x = create_signal(&mut rt, root, Value::Int(7)).unwrap();
    let v = rt.untrack(&Expr::ReadSignal(x)).unwrap();
    assert!(matches!(v, Value::Int(7)));
    d.dispose(&mut rt);
}

#[test]
fn memo_is_lazy_and_computes_once_per_read() {
    // signals a=1, b=2; memo sum = a + b
    let (mut rt, root, d) = create_scope();
    let a = create_signal(&mut rt, root, Value::Int(1)).unwrap();
    let b = create_signal(&mut rt, root, Value::Int(2)).unwrap();
    let sum = create_memo(
        &mut rt,
        root,
        Expr::Add(Box::new(Expr::ReadSignal(a)), Box::new(Expr::ReadSignal(b))),
    )
    .unwrap();
    // not computed before the first read
    assert_eq!(rt.memo_runs(sum).unwrap(), 0);
    assert!(matches!(memo_get(&mut rt, sum).unwrap(), Value::Int(3)));
    assert_eq!(rt.memo_runs(sum).unwrap(), 1);
    // two consecutive writes with no read in between: still stale
    signal_set(&mut rt, a, Value::Int(10)).unwrap();
    signal_set(&mut rt, a, Value::Int(20)).unwrap();
    assert_eq!(rt.memo_runs(sum).unwrap(), 1);
    assert!(matches!(
        rt.memo(sum, ValueKind::Int).unwrap(),
        Some(Value::Int(3))
    ));
    // the next read recomputes exactly once, skipping the stale value
    assert!(matches!(memo_get(&mut rt, sum).unwrap(), Value::Int(22)));
    assert_eq!(rt.memo_runs(sum).unwrap(), 2);
    // a clean repeated read does not recompute
    assert!(matches!(memo_get(&mut rt, sum).unwrap(), Value::Int(22)));
    assert_eq!(rt.memo_runs(sum).unwrap(), 2);
    d.dispose(&mut rt);
}

#[test]
fn memo_notifies_dependents_only_on_changed_value() {
    let (mut rt, root, d) = create_scope();
    let a = create_signal(&mut rt, root, Value::Int(5)).unwrap();
    let m = create_memo(&mut rt, root, Expr::ReadSignal(a)).unwrap();
    let eff = create_effect(&mut rt, root, Expr::ReadMemo(m)).unwrap();
    assert_eq!(rt.effect_runs(eff).unwrap(), 1);
    // writing the same value marks the memo dirty; the recomputation on the
    // next read yields an unchanged value, so the effect is not re-run
    signal_set(&mut rt, a, Value::Int(5)).unwrap();
    assert_eq!(rt.effect_runs(eff).unwrap(), 1);
    assert!(matches!(memo_get(&mut rt, m).unwrap(), Value::Int(5)));
    assert_eq!(rt.effect_runs(eff).unwrap(), 1);
    // a genuine change propagates to the effect when the memo recomputes
    signal_set(&mut rt, a, Value::Int(6)).unwrap();
    assert_eq!(rt.effect_runs(eff).unwrap(), 1);
    assert!(matches!(memo_get(&mut rt, m).unwrap(), Value::Int(6)));
    assert_eq!(rt.effect_runs(eff).unwrap(), 2);
    d.dispose(&mut rt);
}

#[test]
fn dispose_kills_scope_and_descendants() {
    // parent creates child; child holds signal x; parent.dispose() makes
    // every handle of the subtree fail fatally
    let (mut rt, root, _root_d) = create_scope();
    let (parent, parent_d) = root.child_scope(&mut rt).unwrap();
    let (child, _child_d) = parent.child_scope(&mut rt).unwrap();
    let (grandchild, _gc_d) = child.child_scope(&mut rt).unwrap();
    let x = create_signal(&mut rt, child, Value::Int(1)).unwrap();
    let y = create_signal(&mut rt, grandchild, Value::Int(2)).unwrap();
    parent_d.dispose(&mut rt);
    assert!(matches!(signal_get(&mut rt, x), Err(Fault::Dangling)));
    assert!(matches!(signal_get(&mut rt, y), Err(Fault::Dangling)));
    assert!(matches!(signal_set(&mut rt, x, Value::Int(9)), Err(Fault::Dangling)));
    assert!(matches!(
        create_signal(&mut rt, child, Value::Int(3)),
        Err(Fault::Dangling)
    ));
    assert!(matches!(
        create_signal(&mut rt, grandchild, Value::Int(3)),
        Err(Fault::Dangling)
    ));
    // the root, outside the disposed subtree, is untouched
    let z = create_signal(&mut rt, root, Value::Int(4)).unwrap();
    assert!(matches!(signal_get(&mut rt, z).unwrap(), Value::Int(4)));
}

#[test]
fn disposed_scope_effects_never_rerun() {
    let (mut rt, root, _d) = create_scope();
    let s = create_signal(&mut rt, root, Value::Int(0)).unwrap();
    let (child, child_d) = root.child_scope(&mut rt).unwrap();
    let eff = create_effect(&mut rt, child, Expr::ReadSignal(s)).unwrap();
    assert_eq!(rt.effect_runs(eff).unwrap(), 1);
    child_d.dispose(&mut rt);
    // the write still succeeds; the disposed subscriber is skipped, not
    // resurrected
    signal_set(&mut rt, s, Value::Int(1)).unwrap();
    assert!(matches!(rt.effect_runs(eff), Err(Fault::Dangling)));
}

#[test]
fn context_lookup_finds_nearest_ancestor_by_type() {
    // provide "dark" on the parent; a grandchild sees it; an unrelated
    // root does not
    let (mut rt, root, _d) = create_scope();
    let (parent, _pd) = root.child_scope(&mut rt).unwrap();
    provide_context(&mut rt, parent, Value::Str(String::from("dark"))).unwrap();
    let (child, _cd) = parent.child_scope(&mut rt).unwrap();
    let (grandchild, _gd) = child.child_scope(&mut rt).unwrap();
    match use_context(&rt, grandchild, ValueKind::Str).unwrap() {
        Some(Value::Str(s)) => assert_eq!(s, "dark"),
        other => panic!("unexpected context value: {other:?}"),
    }
    // the nearest provider wins
    provide_context(&mut rt, child, Value::Str(String::from("light"))).unwrap();
    match use_context(&rt, grandchild, ValueKind::Str).unwrap() {
        Some(Value::Str(s)) => assert_eq!(s, "light"),
        other => panic!("unexpected context value: {other:?}"),
    }
    // absent kinds, and unrelated roots, give None
    assert!(use_context(&rt, grandchild, ValueKind::Bool).unwrap().is_none());
    let (mut rt2, root2, _d2) = create_scope();
    assert!(use_context(&rt2, root2, ValueKind::Str).unwrap().is_none());
    let _ = create_signal(&mut rt2, root2, Value::Int(0)).unwrap();
}

#[test]
fn typed_access_checks_the_tag() {
    let (mut rt, root, d) = create_scope();
    let s = create_signal(&mut rt, root, Value::Int(3)).unwrap();
    assert_eq!(rt.any_signal(s).unwrap(), ValueKind::Int);
    assert!(matches!(rt.signal(s, ValueKind::Int).unwrap(), Value::Int(3)));
    assert!(matches!(rt.signal(s, ValueKind::Bool), Err(Fault::TypeMismatch)));
    d.dispose(&mut rt);
}

#[test]
fn arithmetic_faults_are_reported() {
    let (mut rt, root, d) = create_scope();
    // a non-integer operand is a type mismatch
    let bad = Expr::Add(
        Box::new(Expr::Const(Value::Bool(true))),
        Box::new(Expr::Const(Value::Int(1))),
    );
    assert!(matches!(rt.untrack(&bad), Err(Fault::TypeMismatch)));
    // integer overflow is a fault, not a wrap
    let over = Expr::Add(
        Box::new(Expr::Const(Value::Int(i64::MAX))),
        Box::new(Expr::Const(Value::Int(1))),
    );
    assert!(matches!(rt.untrack(&over), Err(Fault::Overflow)));
    d.dispose(&mut rt);
}

#[test]
fn self_referential_memo_exhausts_the_budget() {
    let (mut rt, root, d) = create_scope();
    // the handle of the next memo is predictable, so its body can read the
    // memo itself: the evaluation depth budget runs out and faults instead
    // of recursing forever
    let selfish = reactive::handles::MemoHandle { scope: root, id: 0 };
    let m = create_memo(&mut rt, root, Expr::ReadMemo(selfish)).unwrap();
    assert_eq!(m.id, selfish.id);
    assert!(matches!(memo_get(&mut rt, m), Err(Fault::Exhausted)));
    d.dispose(&mut rt);
}

#[test]
fn stale_handles_from_a_foreign_runtime_fault() {
    let (mut rt_a, root_a, _da) = create_scope();
    let (mut rt_b, _root_b, _db) = create_scope();
    let s = create_signal(&mut rt_a, root_a, Value::Int(1)).unwrap();
    // a handle is meaningless outside its runtime
    assert!(matches!(signal_get(&mut rt_b, s), Err(Fault::Dangling)));
}

#[test]
fn sibling_scopes_are_distinct() {
    let (mut rt, root, _d) = create_scope();
    let (left, left_d) = root.child_scope(&mut rt).unwrap();
    let (right, _rd) = root.child_scope(&mut rt).unwrap();
    let ls = create_signal(&mut rt, left, Value::Int(1)).unwrap();
    let rs = create_signal(&mut rt, right, Value::Int(2)).unwrap();
    left_d.dispose(&mut rt);
    // disposing one sibling leaves the other fully reactive
    assert!(matches!(signal_get(&mut rt, ls), Err(Fault::Dangling)));
    assert!(matches!(signal_get(&mut rt, rs).unwrap(), Value::Int(2)));
    signal_set(&mut rt, rs, Value::Int(5)).unwrap();
    assert!(matches!(signal_get(&mut rt, rs).unwrap(), Value::Int(5)));
}

#[test]
fn stack_probes_report_the_running_subscriber() {
    let (mut rt, root, d) = create_scope();
    assert!(rt.running_effect().is_none());
    assert!(rt.running_transition().is_none());
    assert!(rt.transition().is_none());
    d.dispose(&mut rt);
}

#[test]
fn memo_probes_before_first_read() {
    let (mut rt, root, d) = create_scope();
    let m = create_memo(&mut rt, root, Expr::Const(Value::Int(9))).unwrap();
    assert!(rt.any_memo(m).unwrap().is_none());
    assert!(rt.memo(m, ValueKind::Int).unwrap().is_none());
    assert!(matches!(memo_get(&mut rt, m).unwrap(), Value::Int(9)));
    assert_eq!(rt.any_memo(m).unwrap(), Some(ValueKind::Int));
    assert!(matches!(rt.memo(m, ValueKind::Bool), Err(Fault::TypeMismatch)));
    d.dispose(&mut rt);
}

#[test]
fn effect_probe_reports_last_seen_value() {
    let (mut rt, root, d) = create_scope();
    let s = create_signal(&mut rt, root, Value::Int(1)).unwrap();
    let eff = create_effect(&mut rt, root, Expr::ReadSignal(s)).unwrap();
    assert!(matches!(rt.any_effect(eff).unwrap(), Some(Value::Int(1))));
    signal_set(&mut rt, s, Value::Int(2)).unwrap();
    assert!(matches!(rt.any_effect(eff).unwrap(), Some(Value::Int(2))));
    d.dispose(&mut rt);
}

#[test]
fn write_reruns_lone_effect_among_memo_dependents() {
    // the signal has a memo dependent and one effect dependent: the write
    // re-runs the effect exactly once and only marks the memo dirty
    let (mut rt, root, d) = create_scope();
    let s = create_signal(&mut rt, root, Value::Int(1)).unwrap();
    let m = create_memo(&mut rt, root, Expr::ReadSignal(s)).unwrap();
    assert!(matches!(memo_get(&mut rt, m).unwrap(), Value::Int(1)));
    let eff = create_effect(&mut rt, root, Expr::ReadSignal(s)).unwrap();
    assert_eq!(rt.effect_runs(eff).unwrap(), 1);
    assert_eq!(rt.memo_runs(m).unwrap(), 1);
    signal_set(&mut rt, s, Value::Int(2)).unwrap();
    assert_eq!(rt.effect_runs(eff).unwrap(), 2);
    assert!(matches!(rt.effect_run_at(eff, 1).unwrap(), Value::Int(2)));
    // the memo was only marked dirty; it recomputes on its next read
    assert_eq!(rt.memo_runs(m).unwrap(), 1);
    assert!(matches!(memo_get(&mut rt, m).unwrap(), Value::Int(2)));
    assert_eq!(rt.memo_runs(m).unwrap(), 2);
    d.dispose(&mut rt);
}

#[test]
fn string_cells_compare_by_characters() {
    let (mut rt, root, d) = create_scope();
    let s = create_signal(&mut rt, root, Value::Str(String::from("on"))).unwrap();
    let m = create_memo(&mut rt, root, Expr::ReadSignal(s)).unwrap();
    let eff = create_effect(&mut rt, root, Expr::ReadMemo(m)).unwrap();
    assert_eq!(rt.effect_runs(eff).unwrap(), 1);
    // an equal string is an unchanged value: the memo's dependents stay put
    signal_set(&mut rt, s, Value::Str(String::from("on"))).unwrap();
    assert!(matches!(memo_get(&mut rt, m).unwrap(), Value::Str(_)));
    assert_eq!(rt.effect_runs(eff).unwrap(), 1);
    // a different string propagates
    signal_set(&mut rt, s, Value::Str(String::from("off"))).unwrap();
    match memo_get(&mut rt, m).unwrap() {
        Value::Str(x) => assert_eq!(x, "off"),
        other => panic!("unexpected memo value: {other:?}"),
    }
    assert_eq!(rt.effect_runs(eff).unwrap(), 2);
    match rt.any_effect(eff).unwrap() {
        Some(Value::Str(x)) => assert_eq!(x, "off"),
        other => panic!("unexpected last-seen value: {other:?}"),
    }
    d.dispose(&mut rt);
}
