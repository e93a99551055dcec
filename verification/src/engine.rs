//! The tracked evaluator: how computations run, register dependencies, and
//! re-trigger one another.
//!
//! Every entry point runs with a depth budget; a dependency cycle (or a
//! degenerate expression) exhausts it and faults instead of recursing
//! forever.

use vstd::prelude::*;
use crate::handles::{SignalHandle, MemoHandle, EffectHandle, Subscriber, Fault};
use crate::state::{Expr, memo_free, size};
use crate::runtime::Runtime;
use crate::value::{Value, veq, value_eq};
use crate::handles::subscriber_eq;

verus! {

/// The depth budget of one evaluation: enough for any reasonable graph; a
/// cycle runs it out and faults.
pub const MAX_EVAL_DEPTH: usize = 4096;

/// The scope tree, the arenas' shapes, the stored computations and the
/// signal values of `b` are those of `a`.
pub open spec fn same_tree(a: Runtime, b: Runtime) -> bool {
    &&& b.smap() == a.smap()
    &&& b.states@.len() == a.states@.len()
    &&& forall|i: int|
        0 <= i < a.states@.len() ==> {
            &&& (#[trigger] b.states@[i]).parent == a.states@[i].parent
            &&& b.states@[i].children@ == a.states@[i].children@
            &&& b.states@[i].contexts@ == a.states@[i].contexts@
            &&& b.states@[i].signals@.len() == a.states@[i].signals@.len()
            &&& b.states@[i].memos@.len() == a.states@[i].memos@.len()
            &&& b.states@[i].effects@.len() == a.states@[i].effects@.len()
        }
    &&& forall|i: int, j: int|
        0 <= i < a.states@.len() && 0 <= j < a.states@[i].signals@.len() ==> (
        #[trigger] b.states@[i].signals@[j]).value == a.states@[i].signals@[j].value
    &&& forall|i: int, j: int|
        0 <= i < a.states@.len() && 0 <= j < a.states@[i].memos@.len() ==> (
        #[trigger] b.states@[i].memos@[j]).expr == a.states@[i].memos@[j].expr
    &&& forall|i: int, j: int|
        0 <= i < a.states@.len() && 0 <= j < a.states@[i].effects@.len() ==> (
        #[trigger] b.states@[i].effects@[j]).expr == a.states@[i].effects@[j].expr
}

/// Subscriber lists and histories of `b` extend those of `a`: running the
/// engine never unregisters a dependent and never erases a recorded run.
pub open spec fn grows(a: Runtime, b: Runtime) -> bool {
    &&& same_tree(a, b)
    &&& forall|i: int, j: int|
        0 <= i < a.states@.len() && 0 <= j < a.states@[i].signals@.len()
            ==> a.states@[i].signals@[j].subscribers@.is_prefix_of(
            (#[trigger] b.states@[i].signals@[j]).subscribers@,
        )
    &&& forall|i: int, j: int|
        0 <= i < a.states@.len() && 0 <= j < a.states@[i].memos@.len() ==> {
            &&& a.states@[i].memos@[j].subscribers@.is_prefix_of(
                (#[trigger] b.states@[i].memos@[j]).subscribers@,
            )
            &&& a.states@[i].memos@[j].history@.is_prefix_of(b.states@[i].memos@[j].history@)
        }
    &&& forall|i: int, j: int|
        0 <= i < a.states@.len() && 0 <= j < a.states@[i].effects@.len()
            ==> a.states@[i].effects@[j].history@.is_prefix_of(
            (#[trigger] b.states@[i].effects@[j]).history@,
        )
}

/// One tracking step on a subscriber list: unchanged, or the subscriber
/// appended where it was absent.
pub open spec fn subs_step(a: Seq<Subscriber>, b: Seq<Subscriber>, sub: Subscriber) -> bool {
    b == a || (!a.contains(sub) && b == a.push(sub))
}

/// Every signal subscriber list of `b` differs from `a`'s at most by one
/// tracking step on `sub`.
pub open spec fn sig_subs_step(a: Runtime, b: Runtime, sub: Subscriber) -> bool {
    forall|i: int, j: int|
        0 <= i < a.states@.len() && 0 <= j < a.states@[i].signals@.len() ==> subs_step(
            a.states@[i].signals@[j].subscribers@,
            (#[trigger] b.states@[i].signals@[j]).subscribers@,
            sub,
        )
}

/// All memo states and effect states of `b` are exactly those of `a`.
pub open spec fn cells_unchanged(a: Runtime, b: Runtime) -> bool {
    &&& b.states@.len() == a.states@.len()
    &&& forall|i: int|
        0 <= i < a.states@.len() ==> (#[trigger] b.states@[i]).memos@ == a.states@[i].memos@
            && b.states@[i].effects@ == a.states@[i].effects@
}

/// All effect histories of `b` are exactly those of `a`: nothing re-ran.
pub open spec fn eff_logs_unchanged(a: Runtime, b: Runtime) -> bool {
    &&& b.states@.len() == a.states@.len()
    &&& forall|i: int|
        0 <= i < a.states@.len() ==> (#[trigger] b.states@[i]).effects@.len()
            == a.states@[i].effects@.len()
    &&& forall|i: int, j: int|
        0 <= i < a.states@.len() && 0 <= j < a.states@[i].effects@.len() ==> (
        #[trigger] b.states@[i].effects@[j]).history@ == a.states@[i].effects@[j].history@
}

/// What a memo-free computation evaluates to: a pure function of the
/// current signal values (and handle liveness).
pub open spec fn pure_eval(rt: Runtime, e: Expr) -> Result<Value, Fault>
    decreases e,
{
    match e {
        Expr::Const(v) => Ok(v),
        Expr::ReadSignal(h) => if rt.live_signal(h) {
            Ok(rt.sig_val(h))
        } else {
            Err(Fault::Dangling)
        },
        Expr::ReadMemo(_) => Err(Fault::Exhausted),
        Expr::Add(a, b) => add_vals(pure_eval(rt, *a), pure_eval(rt, *b)),
        Expr::Untracked(inner) => pure_eval(rt, *inner),
    }
}

/// Addition on evaluated operands: integer addition, faulting on a
/// non-integer operand or on overflow.
pub open spec fn add_vals(ra: Result<Value, Fault>, rb: Result<Value, Fault>) -> Result<
    Value,
    Fault,
> {
    match (ra, rb) {
        (Ok(Value::Int(x)), Ok(Value::Int(y))) => if -0x8000_0000_0000_0000 <= x + y && x + y
            <= 0x7FFF_FFFF_FFFF_FFFF {
            Ok(Value::Int((x + y) as i64))
        } else {
            Err(Fault::Overflow)
        },
        (Ok(_), Ok(_)) => Err(Fault::TypeMismatch),
        (Err(f), _) => Err(f),
        (Ok(_), Err(f)) => Err(f),
    }
}

/// `pure_eval` reads only what `same_tree` fixes, so it is stable across
/// any engine step.
pub proof fn lemma_pure_eval_stable(a: Runtime, b: Runtime, e: Expr)
    requires
        same_tree(a, b),
    ensures
        pure_eval(a, e) == pure_eval(b, e),
    decreases e,
{
    match e {
        Expr::Const(_) => {},
        Expr::ReadSignal(h) => {},
        Expr::ReadMemo(_) => {},
        Expr::Add(x, y) => {
            lemma_pure_eval_stable(a, b, *x);
            lemma_pure_eval_stable(a, b, *y);
        },
        Expr::Untracked(inner) => {
            lemma_pure_eval_stable(a, b, *inner);
        },
    }
}

/// `pure_eval` depends only on the arena map and the signal values.
pub proof fn lemma_pure_eval_values(a: Runtime, b: Runtime, e: Expr)
    requires
        b.smap() == a.smap(),
        b.states@.len() == a.states@.len(),
        forall|i: int|
            0 <= i < a.states@.len() ==> (#[trigger] b.states@[i]).signals@.len()
                == a.states@[i].signals@.len(),
        forall|i: int, j: int|
            0 <= i < a.states@.len() && 0 <= j < a.states@[i].signals@.len() ==> (
            #[trigger] b.states@[i].signals@[j]).value == a.states@[i].signals@[j].value,
    ensures
        pure_eval(a, e) == pure_eval(b, e),
    decreases e,
{
    match e {
        Expr::Const(_) => {},
        Expr::ReadSignal(h) => {},
        Expr::ReadMemo(_) => {},
        Expr::Add(x, y) => {
            lemma_pure_eval_values(a, b, *x);
            lemma_pure_eval_values(a, b, *y);
        },
        Expr::Untracked(inner) => {
            lemma_pure_eval_values(a, b, *inner);
        },
    }
}

/// `same_tree` fixes everything well-formedness depends on.
pub proof fn lemma_same_tree_wf(a: Runtime, b: Runtime)
    requires
        same_tree(a, b),
        a.wf(),
    ensures
        b.wf(),
{
    assert forall|i: int| 0 <= i < b.n() implies #[trigger] b.scope_wf(i) by {
        assert(a.scope_wf(i));
        match b.st(i).parent {
            Some(q) => {
                let c = choose|c: int|
                    0 <= c < a.st(q as int).children@.len() && (#[trigger] a.st(
                        q as int,
                    ).children@[c]).idx as int == i;
                assert(b.st(q as int).children@[c] == a.st(q as int).children@[c]);
            },
            None => {},
        }
        assert forall|c: int| 0 <= c < b.st(i).children@.len() implies b.child_ok(
            i,
            #[trigger] b.st(i).children@[c],
        ) by {
            assert(a.child_ok(i, a.st(i).children@[c]));
            assert(b.st(i).children@[c] == a.st(i).children@[c]);
        }
    }
}

pub proof fn lemma_prefix_trans(a: Seq<Value>, b: Seq<Value>, c: Seq<Value>)
    requires
        a.is_prefix_of(b),
        b.is_prefix_of(c),
    ensures
        a.is_prefix_of(c),
{
    assert(a =~= c.subrange(0, a.len() as int));
}

pub proof fn lemma_prefix_trans_subs(a: Seq<Subscriber>, b: Seq<Subscriber>, c: Seq<Subscriber>)
    requires
        a.is_prefix_of(b),
        b.is_prefix_of(c),
    ensures
        a.is_prefix_of(c),
{
    assert(a =~= c.subrange(0, a.len() as int));
}

/// `grows` is reflexive: a runtime extends itself.
pub proof fn lemma_grows_refl(a: Runtime)
    ensures
        grows(a, a),
{
    assert forall|i: int, j: int|
        0 <= i < a.states@.len() && 0 <= j < a.states@[i].signals@.len()
            implies a.states@[i].signals@[j].subscribers@.is_prefix_of(
        (#[trigger] a.states@[i].signals@[j]).subscribers@,
    ) by {
        let x = a.states@[i].signals@[j].subscribers@;
        assert(x =~= x.subrange(0, x.len() as int));
    }
    assert forall|i: int, j: int|
        0 <= i < a.states@.len() && 0 <= j < a.states@[i].memos@.len() implies {
        &&& a.states@[i].memos@[j].subscribers@.is_prefix_of(
            (#[trigger] a.states@[i].memos@[j]).subscribers@,
        )
        &&& a.states@[i].memos@[j].history@.is_prefix_of(a.states@[i].memos@[j].history@)
    } by {
        let x = a.states@[i].memos@[j].subscribers@;
        assert(x =~= x.subrange(0, x.len() as int));
        let y = a.states@[i].memos@[j].history@;
        assert(y =~= y.subrange(0, y.len() as int));
    }
    assert forall|i: int, j: int|
        0 <= i < a.states@.len() && 0 <= j < a.states@[i].effects@.len()
            implies a.states@[i].effects@[j].history@.is_prefix_of(
        (#[trigger] a.states@[i].effects@[j]).history@,
    ) by {
        let y = a.states@[i].effects@[j].history@;
        assert(y =~= y.subrange(0, y.len() as int));
    }
}

/// A runtime with the same arena and states (only the stack may differ)
/// extends well-formedness and growth.
pub proof fn lemma_wf_same_cells(a: Runtime, b: Runtime)
    requires
        a.wf(),
        b.slots == a.slots,
        b.states == a.states,
    ensures
        b.wf(),
{
    assert(same_tree(a, b));
    lemma_same_tree_wf(a, b);
}

pub proof fn lemma_grows_same_cells(a: Runtime, b: Runtime)
    requires
        b.slots == a.slots,
        b.states == a.states,
    ensures
        grows(a, b),
{
    lemma_grows_refl(a);
    assert(same_tree(a, b));
}

/// `same_tree` and `grows` compose.
pub proof fn lemma_grows_trans(a: Runtime, b: Runtime, c: Runtime)
    requires
        grows(a, b),
        grows(b, c),
    ensures
        grows(a, c),
{
    assert forall|i: int, j: int|
        0 <= i < a.states@.len() && 0 <= j < a.states@[i].signals@.len()
            implies a.states@[i].signals@[j].subscribers@.is_prefix_of(
        (#[trigger] c.states@[i].signals@[j]).subscribers@,
    ) by {
        lemma_prefix_trans_subs(
            a.states@[i].signals@[j].subscribers@,
            b.states@[i].signals@[j].subscribers@,
            c.states@[i].signals@[j].subscribers@,
        );
    }
    assert forall|i: int, j: int|
        0 <= i < a.states@.len() && 0 <= j < a.states@[i].memos@.len() implies {
        &&& a.states@[i].memos@[j].subscribers@.is_prefix_of(
            (#[trigger] c.states@[i].memos@[j]).subscribers@,
        )
        &&& a.states@[i].memos@[j].history@.is_prefix_of(c.states@[i].memos@[j].history@)
    } by {
        lemma_prefix_trans_subs(
            a.states@[i].memos@[j].subscribers@,
            b.states@[i].memos@[j].subscribers@,
            c.states@[i].memos@[j].subscribers@,
        );
        lemma_prefix_trans(
            a.states@[i].memos@[j].history@,
            b.states@[i].memos@[j].history@,
            c.states@[i].memos@[j].history@,
        );
    }
    assert forall|i: int, j: int|
        0 <= i < a.states@.len() && 0 <= j < a.states@[i].effects@.len()
            implies a.states@[i].effects@[j].history@.is_prefix_of(
        (#[trigger] c.states@[i].effects@[j]).history@,
    ) by {
        lemma_prefix_trans(
            a.states@[i].effects@[j].history@,
            b.states@[i].effects@[j].history@,
            c.states@[i].effects@[j].history@,
        );
    }
}

/// Tracking steps compose.
pub proof fn lemma_subs_step_trans(a: Runtime, b: Runtime, c: Runtime, sub: Subscriber)
    requires
        same_tree(a, b),
        sig_subs_step(a, b, sub),
        sig_subs_step(b, c, sub),
    ensures
        sig_subs_step(a, c, sub),
{
    assert forall|i: int, j: int|
        0 <= i < a.states@.len() && 0 <= j < a.states@[i].signals@.len() implies subs_step(
        a.states@[i].signals@[j].subscribers@,
        (#[trigger] c.states@[i].signals@[j]).subscribers@,
        sub,
    ) by {
        let sa = a.states@[i].signals@[j].subscribers@;
        let sb = b.states@[i].signals@[j].subscribers@;
        let sc = c.states@[i].signals@[j].subscribers@;
        assert(subs_step(sa, sb, sub));
        assert(subs_step(sb, sc, sub));
        if sb == sa.push(sub) {
            assert(sb.contains(sub)) by {
                assert(sb[sa.len() as int] == sub);
            }
        }
    }
}

/// Whether a subscriber is already on a list.
pub(crate) fn subs_contains(v: &Vec<Subscriber>, s: &Subscriber) -> (r: bool)
    ensures
        r == v@.contains(*s),
{
    let n = v.len();
    let mut i: usize = 0;
    while i < n
        invariant
            i <= n,
            n == v@.len(),
            forall|k: int| 0 <= k < i ==> v@[k] != *s,
        decreases n - i,
    {
        if subscriber_eq(&v[i], s) {
            return true;
        }
        i += 1;
    }
    false
}

/// Every entry is a memo subscriber.
pub open spec fn all_memos(subs: Seq<Subscriber>) -> bool {
    forall|k: int| 0 <= k < subs.len() ==> (#[trigger] subs[k]) is Memo
}

/// `eh` appears exactly once in the list, and every other entry is a memo.
pub open spec fn lone_effect(subs: Seq<Subscriber>, eh: EffectHandle) -> bool {
    exists|k0: int|
        0 <= k0 < subs.len() && (#[trigger] subs[k0]) == Subscriber::Effect(eh) && (forall|k: int|
            0 <= k < subs.len() && k != k0 ==> (#[trigger] subs[k]) is Memo)
}

/// The position of the lone effect in the list.
pub open spec fn lone_pos(subs: Seq<Subscriber>, eh: EffectHandle) -> int {
    choose|k0: int|
        0 <= k0 < subs.len() && (#[trigger] subs[k0]) == Subscriber::Effect(eh) && (forall|k: int|
            0 <= k < subs.len() && k != k0 ==> (#[trigger] subs[k]) is Memo)
}

pub open spec fn is_memo_at(s: Subscriber, i: int, j: int) -> bool {
    match s {
        Subscriber::Memo(mh) => mh.scope.idx as int == i && mh.id as int == j,
        _ => false,
    }
}

pub open spec fn subs_has_memo_at(subs: Seq<Subscriber>, i: int, j: int) -> bool {
    exists|k: int| 0 <= k < subs.len() && is_memo_at(#[trigger] subs[k], i, j)
}

/// Signal subscriber lists of `b` are exactly those of `a`.
pub open spec fn sig_subs_exact(a: Runtime, b: Runtime) -> bool {
    forall|i: int, j: int|
        0 <= i < a.states@.len() && 0 <= j < a.states@[i].signals@.len() ==> (
        #[trigger] b.states@[i].signals@[j]).subscribers@ == a.states@[i].signals@[j].subscribers@
}

/// Effect states of `b` are exactly those of `a`.
pub open spec fn effs_exact(a: Runtime, b: Runtime) -> bool {
    &&& b.states@.len() == a.states@.len()
    &&& forall|i: int|
        0 <= i < a.states@.len() ==> (#[trigger] b.states@[i]).effects@ == a.states@[i].effects@
}

/// Memos of `b` agree with `a` in everything but possibly the dirty flag.
pub open spec fn memos_quiet(a: Runtime, b: Runtime) -> bool {
    forall|i: int, j: int|
        0 <= i < a.states@.len() && 0 <= j < a.states@[i].memos@.len() ==> {
            &&& (#[trigger] b.states@[i].memos@[j]).expr == a.states@[i].memos@[j].expr
            &&& b.states@[i].memos@[j].history@ == a.states@[i].memos@[j].history@
            &&& b.states@[i].memos@[j].subscribers@ == a.states@[i].memos@[j].subscribers@
        }
}

pub(crate) fn copy_subs(v: &Vec<Subscriber>) -> (r: Vec<Subscriber>)
    ensures
        r@ == v@,
{
    let mut out: Vec<Subscriber> = Vec::new();
    let n = v.len();
    let mut i: usize = 0;
    while i < n
        invariant
            i <= n,
            n == v@.len(),
            out@ == v@.take(i as int),
        decreases n - i,
    {
        out.push(v[i]);
        proof {
            assert(v@.take(i as int + 1) =~= v@.take(i as int).push(v@[i as int]));
        }
        i += 1;
    }
    proof {
        assert(v@.take(n as int) =~= v@);
    }
    out
}

/// Read a signal: if a subscriber is running, register it as a dependent
/// (idempotently), then return the current value. With an empty tracking
/// stack the runtime is left exactly as it was.
pub(crate) fn read_signal(rt: &mut Runtime, h: SignalHandle) -> (r: Result<Value, Fault>)
    requires
        old(rt).wf(),
    ensures
        final(rt).wf(),
        final(rt).stack@ == old(rt).stack@,
        grows(*old(rt), *final(rt)) || *final(rt) == *old(rt),
        r is Ok <==> old(rt).live_signal(h),
        !old(rt).live_signal(h) ==> *final(rt) == *old(rt) && r == Err::<Value, Fault>(
            Fault::Dangling,
        ),
        old(rt).live_signal(h) ==> {
            &&& r == Ok::<Value, Fault>(old(rt).sig_val(h))
            &&& grows(*old(rt), *final(rt))
            &&& cells_unchanged(*old(rt), *final(rt))
            &&& (old(rt).stack@.len() == 0 ==> *final(rt) == *old(rt))
            &&& (old(rt).stack@.len() > 0 ==> {
                &&& sig_subs_step(*old(rt), *final(rt), old(rt).stack@.last())
                &&& forall|i: int, j: int|
                    0 <= i < old(rt).states@.len() && 0 <= j < old(rt).states@[i].signals@.len() && !(i == h.scope.idx as int && j
                        == h.id as int) ==> (#[trigger] final(rt).states@[i].signals@[j]).subscribers@
                        == old(rt).states@[i].signals@[j].subscribers@
                &&& final(rt).sig_subs(h) == (if old(rt).sig_subs(h).contains(
                    old(rt).stack@.last(),
                ) {
                    old(rt).sig_subs(h)
                } else {
                    old(rt).sig_subs(h).push(old(rt).stack@.last())
                })
            })
        },
{
    let i = match rt.resolve(h.scope) {
        Some(i) => i,
        None => {
            return Err(Fault::Dangling);
        },
    };
    proof {
        assert((i as int) < rt.n());
    }
    if h.id >= rt.states[i].signals.len() {
        return Err(Fault::Dangling);
    }
    let v = rt.states[i].signals[h.id].value.clone();
    let top_opt = rt.running_effect();
    match top_opt {
        Some(top) => {
            let st = &mut rt.states[i];
            let sg = &mut st.signals[h.id];
            if !subs_contains(&sg.subscribers, &top) {
                sg.subscribers.push(top);
            }
        },
        None => {},
    }
    proof {
        if old(rt).stack@.len() > 0 {
            assert(grows(*old(rt), *rt));
            lemma_same_tree_wf(*old(rt), *rt);
        }
    }
    Ok(v)
}

/// Evaluate a computation under the current tracking stack, spending one
/// unit of budget per step.
pub(crate) fn eval(rt: &mut Runtime, e: &Expr, fuel: usize) -> (r: Result<Value, Fault>)
    requires
        old(rt).wf(),
    ensures
        final(rt).wf(),
        final(rt).stack@ == old(rt).stack@,
        grows(*old(rt), *final(rt)),
        memo_free(*e) && size(*e) <= fuel ==> {
            &&& r == pure_eval(*old(rt), *e)
            &&& cells_unchanged(*old(rt), *final(rt))
            &&& (old(rt).stack@.len() == 0 ==> *final(rt) == *old(rt))
            &&& (old(rt).stack@.len() > 0 ==> sig_subs_step(
                *old(rt),
                *final(rt),
                old(rt).stack@.last(),
            ))
        },
    decreases fuel,
{
    if fuel == 0 {
        return Err(Fault::Exhausted);
    }
    match e {
        Expr::Const(v) => {
            proof {
                lemma_grows_refl(*rt);
            }
            Ok(v.clone())
        },
        Expr::ReadSignal(h) => {
            let r = read_signal(rt, *h);
            proof {
                if *rt == *old(rt) {
                    lemma_grows_refl(*rt);
                }
            }
            r
        },
        Expr::ReadMemo(h) => read_memo(rt, *h, fuel - 1),
        Expr::Add(ea, eb) => {
            let ghost pre = *rt;
            let ra = eval(rt, &**ea, fuel - 1);
            let ghost mid = *rt;
            let rb = eval(rt, &**eb, fuel - 1);
            proof {
                lemma_grows_trans(pre, mid, *rt);
                if memo_free(*e) && size(*e) <= fuel {
                    lemma_pure_eval_stable(pre, mid, **eb);
                    if pre.stack@.len() > 0 {
                        lemma_subs_step_trans(pre, mid, *rt, pre.stack@.last());
                    }
                }
            }
            let va = match ra {
                Ok(v) => v,
                Err(f) => {
                    return Err(f);
                },
            };
            let vb = match rb {
                Ok(v) => v,
                Err(f) => {
                    return Err(f);
                },
            };
            match (va, vb) {
                (Value::Int(x), Value::Int(y)) => {
                    match x.checked_add(y) {
                        Some(z) => Ok(Value::Int(z)),
                        None => Err(Fault::Overflow),
                    }
                },
                _ => Err(Fault::TypeMismatch),
            }
        },
        Expr::Untracked(inner) => {
            let mut saved: Vec<Subscriber> = Vec::new();
            core::mem::swap(&mut saved, &mut rt.stack);
            let ghost mid0 = *rt;
            proof {
                lemma_wf_same_cells(*old(rt), mid0);
                lemma_grows_same_cells(*old(rt), mid0);
            }
            let r = eval(rt, &**inner, fuel - 1);
            let ghost mid1 = *rt;
            core::mem::swap(&mut saved, &mut rt.stack);
            proof {
                lemma_wf_same_cells(mid1, *rt);
                lemma_grows_same_cells(mid1, *rt);
                lemma_grows_trans(*old(rt), mid0, mid1);
                lemma_grows_trans(*old(rt), mid1, *rt);
                assert(rt.stack@ == old(rt).stack@);
                if memo_free(*e) && size(*e) <= fuel {
                    lemma_pure_eval_stable(*old(rt), mid0, **inner);
                }
            }
            r
        },
    }
}

/// Read a memo: refresh it if dirty (or never computed), then register the
/// ambient subscriber, then return the cached value.
pub(crate) fn read_memo(rt: &mut Runtime, h: MemoHandle, fuel: usize) -> (r: Result<Value, Fault>)
    requires
        old(rt).wf(),
    ensures
        final(rt).wf(),
        final(rt).stack@ == old(rt).stack@,
        grows(*old(rt), *final(rt)),
        fuel > 0 && !old(rt).live_memo(h) ==> *final(rt) == *old(rt) && r == Err::<Value, Fault>(
            Fault::Dangling,
        ),
        // lazy cache hit with an empty stack: nothing changes at all
        fuel > 0 && old(rt).live_memo(h) && !old(rt).memo_dirty(h) && old(rt).memo_log(
            h,
        ).len() > 0 && old(rt).stack@.len() == 0 ==> {
            &&& r == Ok::<Value, Fault>(old(rt).memo_log(h).last())
            &&& *final(rt) == *old(rt)
        },
        // lazy cache hit under tracking: the running subscriber is
        // registered on the memo, idempotently, and nothing else changes
        fuel > 0 && old(rt).live_memo(h) && !old(rt).memo_dirty(h) && old(rt).memo_log(
            h,
        ).len() > 0 && old(rt).stack@.len() > 0 ==> {
            &&& r == Ok::<Value, Fault>(old(rt).memo_log(h).last())
            &&& final(rt).memo_log(h) == old(rt).memo_log(h)
            &&& final(rt).memo_dirty(h) == old(rt).memo_dirty(h)
            &&& eff_logs_unchanged(*old(rt), *final(rt))
            &&& final(rt).memo_subs(h) == (if old(rt).memo_subs(h).contains(
                old(rt).stack@.last(),
            ) {
                old(rt).memo_subs(h)
            } else {
                old(rt).memo_subs(h).push(old(rt).stack@.last())
            })
        },
        // a dirty (or first) read of a memo-free body recomputes exactly once
        old(rt).live_memo(h) && (old(rt).memo_dirty(h) || old(rt).memo_log(h).len() == 0)
            && memo_free(old(rt).memo_expr(h)) && size(old(rt).memo_expr(h)) + 2 <= fuel ==> {
            match pure_eval(*old(rt), old(rt).memo_expr(h)) {
                Ok(v) => {
                    &&& (old(rt).memo_subs(h).len() == 0 ==> {
                        &&& r == Ok::<Value, Fault>(v)
                        &&& final(rt).memo_log(h) == old(rt).memo_log(h).push(v)
                        &&& !final(rt).memo_dirty(h)
                        &&& eff_logs_unchanged(*old(rt), *final(rt))
                    })
                    &&& (old(rt).memo_log(h).len() > 0 && veq(v, old(rt).memo_log(h).last())
                        ==> {
                        &&& r == Ok::<Value, Fault>(v)
                        &&& final(rt).memo_log(h) == old(rt).memo_log(h).push(v)
                        &&& !final(rt).memo_dirty(h)
                        &&& eff_logs_unchanged(*old(rt), *final(rt))
                    })
                },
                Err(f) => r == Err::<Value, Fault>(f),
            }
        },
    decreases fuel,
{
    if fuel == 0 {
        proof {
            lemma_grows_refl(*rt);
        }
        return Err(Fault::Exhausted);
    }
    let res = refresh_memo(rt, h, fuel - 1);
    let v = match res {
        Ok(v) => v,
        Err(f) => {
            return Err(f);
        },
    };
    let ghost mid = *rt;
    // register the ambient subscriber as a dependent of this memo
    let i = match rt.resolve(h.scope) {
        Some(i) => i,
        None => {
            return Err(Fault::Dangling);
        },
    };
    proof {
        assert((i as int) < rt.n());
    }
    if h.id >= rt.states[i].memos.len() {
        return Err(Fault::Dangling);
    }
    let top_opt = rt.running_effect();
    match top_opt {
        Some(top) => {
            let st = &mut rt.states[i];
            let m = &mut st.memos[h.id];
            if !subs_contains(&m.subscribers, &top) {
                m.subscribers.push(top);
            }
        },
        None => {},
    }
    proof {
        assert(grows(mid, *rt));
        lemma_same_tree_wf(mid, *rt);
        lemma_grows_trans(*old(rt), mid, *rt);
        assert(rt.memo_log(h) == mid.memo_log(h));
        assert(rt.memo_st(h).dirty == mid.memo_st(h).dirty);
        assert(eff_logs_unchanged(mid, *rt));
    }
    Ok(v)
}

/// Recompute a memo if it is dirty or was never computed; on a change of
/// value (and only then), notify its dependents. Registers nothing on the
/// memo itself.
pub(crate) fn refresh_memo(rt: &mut Runtime, h: MemoHandle, fuel: usize) -> (r: Result<
    Value,
    Fault,
>)
    requires
        old(rt).wf(),
    ensures
        final(rt).wf(),
        final(rt).stack@ == old(rt).stack@,
        grows(*old(rt), *final(rt)),
        !old(rt).live_memo(h) ==> *final(rt) == *old(rt) && r == Err::<Value, Fault>(
            Fault::Dangling,
        ),
        // a clean cached memo answers from its cache and touches nothing
        old(rt).live_memo(h) && !old(rt).memo_dirty(h) && old(rt).memo_log(h).len() > 0 ==> {
            &&& r == Ok::<Value, Fault>(old(rt).memo_log(h).last())
            &&& *final(rt) == *old(rt)
        },
        // a dirty (or never-computed) memo with a memo-free body recomputes
        // exactly once; downstream notification is gated on a change of
        // value
        old(rt).live_memo(h) && (old(rt).memo_dirty(h) || old(rt).memo_log(h).len() == 0)
            && memo_free(old(rt).memo_expr(h)) && size(old(rt).memo_expr(h)) + 1 <= fuel ==> {
            match pure_eval(*old(rt), old(rt).memo_expr(h)) {
                Ok(v) => {
                    &&& (old(rt).memo_subs(h).len() == 0 ==> {
                        &&& r == Ok::<Value, Fault>(v)
                        &&& final(rt).memo_log(h) == old(rt).memo_log(h).push(v)
                        &&& !final(rt).memo_dirty(h)
                        &&& eff_logs_unchanged(*old(rt), *final(rt))
                    })
                    &&& (old(rt).memo_log(h).len() > 0 && veq(v, old(rt).memo_log(h).last())
                        ==> {
                        &&& r == Ok::<Value, Fault>(v)
                        &&& final(rt).memo_log(h) == old(rt).memo_log(h).push(v)
                        &&& !final(rt).memo_dirty(h)
                        &&& eff_logs_unchanged(*old(rt), *final(rt))
                    })
                },
                Err(f) => r == Err::<Value, Fault>(f),
            }
        },
    decreases fuel,
{
    let i = match rt.resolve(h.scope) {
        Some(i) => i,
        None => {
            proof {
                lemma_grows_refl(*rt);
            }
            return Err(Fault::Dangling);
        },
    };
    proof {
        assert((i as int) < rt.n());
    }
    if h.id >= rt.states[i].memos.len() {
        proof {
            lemma_grows_refl(*rt);
        }
        return Err(Fault::Dangling);
    }
    let dirty = rt.states[i].memos[h.id].dirty;
    let cached = rt.states[i].memos[h.id].history.len();
    if !dirty && cached > 0 {
        let v = rt.states[i].memos[h.id].history[cached - 1].clone();
        proof {
            lemma_grows_refl(*rt);
        }
        return Ok(v);
    }
    if fuel == 0 {
        proof {
            lemma_grows_refl(*rt);
        }
        return Err(Fault::Exhausted);
    }
    let expr = rt.states[i].memos[h.id].expr.clone();
    rt.push_stack(Subscriber::Memo(h));
    let ghost mid0 = *rt;
    proof {
        lemma_wf_same_cells(*old(rt), mid0);
        lemma_grows_same_cells(*old(rt), mid0);
        if memo_free(old(rt).memo_expr(h)) {
            lemma_pure_eval_stable(*old(rt), mid0, old(rt).memo_expr(h));
        }
    }
    let res = eval(rt, &expr, fuel - 1);
    let ghost mid1 = *rt;
    rt.pop_stack();
    proof {
        lemma_wf_same_cells(mid1, *rt);
        lemma_grows_same_cells(mid1, *rt);
        lemma_grows_trans(*old(rt), mid0, mid1);
        lemma_grows_trans(*old(rt), mid1, *rt);
        assert(old(rt).stack@.push(Subscriber::Memo(h)).drop_last() =~= old(rt).stack@);
    }
    let v = match res {
        Ok(v) => v,
        Err(f) => {
            return Err(f);
        },
    };
    let prev_len = rt.states[i].memos[h.id].history.len();
    let changed = if prev_len > 0 {
        !value_eq(&rt.states[i].memos[h.id].history[prev_len - 1], &v)
    } else {
        true
    };
    let ghost before_store = *rt;
    {
        let st = &mut rt.states[i];
        let m = &mut st.memos[h.id];
        m.history.push(v.clone());
        m.dirty = false;
    }
    proof {
        assert(grows(before_store, *rt)) by {
            let x = before_store.states@[i as int].memos@[h.id as int].history@;
            assert(x.is_prefix_of(x.push(v))) by {
                assert(x =~= x.push(v).subrange(0, x.len() as int));
            }
            lemma_grows_refl(before_store);
        }
        lemma_same_tree_wf(before_store, *rt);
        lemma_grows_trans(*old(rt), before_store, *rt);
    }
    if changed {
        let subs_copy = copy_subs(&rt.states[i].memos[h.id].subscribers);
        proof {
            if memo_free(old(rt).memo_expr(h)) && size(old(rt).memo_expr(h)) + 1 <= fuel {
                assert(subs_copy@ == old(rt).memo_subs(h));
            }
        }
        let ghost before_notify = *rt;
        let nres = notify(rt, &subs_copy, fuel - 1);
        proof {
            lemma_grows_trans(*old(rt), before_notify, *rt);
            if memo_free(old(rt).memo_expr(h)) && size(old(rt).memo_expr(h)) + 1 <= fuel
                && old(rt).memo_subs(h).len() == 0 {
                assert(all_memos(subs_copy@));
                assert(rt.memo_log(h) == before_notify.memo_log(h));
                assert(!subs_has_memo_at(subs_copy@, h.scope.idx as int, h.id as int));
                assert(rt.memo_st(h).dirty == before_notify.memo_st(h).dirty);
                assert(eff_logs_unchanged(before_notify, *rt));
            }
        }
        match nres {
            Ok(()) => {},
            Err(f) => {
                return Err(f);
            },
        }
    }
    Ok(v)
}

/// Run an effect: evaluate its body under tracking (attributing its reads
/// to itself) and record the run. A dead handle is skipped silently:
/// disposal prevents re-triggers.
pub(crate) fn run_effect(rt: &mut Runtime, h: EffectHandle, fuel: usize) -> (r: Result<(), Fault>)
    requires
        old(rt).wf(),
    ensures
        final(rt).wf(),
        final(rt).stack@ == old(rt).stack@,
        grows(*old(rt), *final(rt)),
        !old(rt).live_effect(h) ==> *final(rt) == *old(rt) && r is Ok,
        old(rt).live_effect(h) && memo_free(old(rt).eff_expr(h)) && size(old(rt).eff_expr(h)) + 1
            <= fuel ==> {
            match pure_eval(*old(rt), old(rt).eff_expr(h)) {
                Ok(v) => {
                    &&& r is Ok
                    &&& final(rt).eff_log(h) == old(rt).eff_log(h).push(v)
                    &&& forall|i: int, j: int|
                        0 <= i < old(rt).states@.len() && 0 <= j < old(rt).states@[i].effects@.len()
                            && !(i == h.scope.idx as int && j == h.id as int) ==> (#[trigger] final(rt).states@[i].effects@[j]).history@
                            == old(rt).states@[i].effects@[j].history@
                    &&& memos_quiet(*old(rt), *final(rt))
                    &&& forall|i: int, j: int|
                        0 <= i < old(rt).states@.len() && 0 <= j < old(rt).states@[i].memos@.len()
                            ==> (#[trigger] final(rt).states@[i].memos@[j]).dirty == old(rt).states@[i].memos@[j].dirty
                    &&& sig_subs_step(*old(rt), *final(rt), Subscriber::Effect(h))
                },
                Err(f) => r == Err::<(), Fault>(f),
            }
        },
    decreases fuel,
{
    let i = match rt.resolve(h.scope) {
        Some(i) => i,
        None => {
            proof {
                lemma_grows_refl(*rt);
            }
            return Ok(());
        },
    };
    proof {
        assert((i as int) < rt.n());
    }
    if h.id >= rt.states[i].effects.len() {
        proof {
            lemma_grows_refl(*rt);
        }
        return Ok(());
    }
    if fuel == 0 {
        proof {
            lemma_grows_refl(*rt);
        }
        return Err(Fault::Exhausted);
    }
    let expr = rt.states[i].effects[h.id].expr.clone();
    rt.push_stack(Subscriber::Effect(h));
    let ghost mid0 = *rt;
    proof {
        lemma_wf_same_cells(*old(rt), mid0);
        lemma_grows_same_cells(*old(rt), mid0);
        if memo_free(old(rt).eff_expr(h)) {
            lemma_pure_eval_stable(*old(rt), mid0, old(rt).eff_expr(h));
        }
    }
    let res = eval(rt, &expr, fuel - 1);
    let ghost mid1 = *rt;
    rt.pop_stack();
    proof {
        lemma_wf_same_cells(mid1, *rt);
        lemma_grows_same_cells(mid1, *rt);
        lemma_grows_trans(*old(rt), mid0, mid1);
        lemma_grows_trans(*old(rt), mid1, *rt);
        assert(old(rt).stack@.push(Subscriber::Effect(h)).drop_last() =~= old(rt).stack@);
    }
    let v = match res {
        Ok(v) => v,
        Err(f) => {
            return Err(f);
        },
    };
    let ghost before_store = *rt;
    {
        let st = &mut rt.states[i];
        let ef = &mut st.effects[h.id];
        ef.history.push(v);
    }
    proof {
        assert(grows(before_store, *rt)) by {
            let x = before_store.states@[i as int].effects@[h.id as int].history@;
            assert(x.is_prefix_of(x.push(v))) by {
                assert(x =~= x.push(v).subrange(0, x.len() as int));
            }
            lemma_grows_refl(before_store);
        }
        lemma_same_tree_wf(before_store, *rt);
        lemma_grows_trans(*old(rt), before_store, *rt);
    }
    Ok(())
}

/// Notify a snapshot of a subscriber list, in registration order: effects
/// re-run synchronously; memos are only marked dirty (lazy recomputation,
/// deferred to their next read).
pub(crate) fn notify(rt: &mut Runtime, subs: &Vec<Subscriber>, fuel: usize) -> (r: Result<
    (),
    Fault,
>)
    requires
        old(rt).wf(),
    ensures
        final(rt).wf(),
        final(rt).stack@ == old(rt).stack@,
        grows(*old(rt), *final(rt)),
        // laziness: a write with only memo dependents re-runs nothing and
        // recomputes nothing; it only marks the dependents dirty
        all_memos(subs@) ==> {
            &&& r is Ok
            &&& effs_exact(*old(rt), *final(rt))
            &&& sig_subs_exact(*old(rt), *final(rt))
            &&& memos_quiet(*old(rt), *final(rt))
            &&& forall|i: int, j: int|
                0 <= i < old(rt).states@.len() && 0 <= j < old(rt).states@[i].memos@.len()
                    && !subs_has_memo_at(subs@, i, j) ==> (#[trigger] final(rt).states@[i].memos@[j]).dirty
                    == old(rt).states@[i].memos@[j].dirty
            &&& forall|k: int|
                0 <= k < subs@.len() ==> match #[trigger] subs@[k] {
                    Subscriber::Memo(mh) => old(rt).live_memo(mh) ==> final(rt).memo_dirty(mh),
                    _ => true,
                }
        },
        // a lone effect dependent, among any number of memo dependents,
        // re-runs exactly once, with the current signal values visible
        forall|eh: EffectHandle|
            lone_effect(subs@, eh) && #[trigger] old(rt).live_effect(
                eh,
            ) && memo_free(old(rt).eff_expr(eh)) && size(old(rt).eff_expr(eh)) + 2 <= fuel ==> {
                match pure_eval(*old(rt), old(rt).eff_expr(eh)) {
                    Ok(v) => {
                        &&& r is Ok
                        &&& final(rt).eff_log(eh) == old(rt).eff_log(eh).push(v)
                        &&& forall|i: int, j: int|
                            0 <= i < old(rt).states@.len() && 0 <= j < old(rt).states@[i].effects@.len()
                                && !(i == eh.scope.idx as int && j == eh.id as int) ==> (
                            #[trigger] final(rt).states@[i].effects@[j]).history@
                                == old(rt).states@[i].effects@[j].history@
                        &&& memos_quiet(*old(rt), *final(rt))
                    },
                    Err(f) => r == Err::<(), Fault>(f),
                }
            },
    decreases fuel,
{
    let n = subs.len();
    let ghost pre = *old(rt);
    let mut k: usize = 0;
    proof {
        lemma_grows_refl(pre);
    }
    while k < n
        invariant
            pre == *old(rt),
            pre.wf(),
            n == subs@.len(),
            k <= n,
            rt.wf(),
            rt.stack@ == pre.stack@,
            grows(pre, *rt),
            all_memos(subs@) ==> {
                &&& effs_exact(pre, *rt)
                &&& sig_subs_exact(pre, *rt)
                &&& memos_quiet(pre, *rt)
                &&& forall|i: int, j: int|
                    0 <= i < pre.states@.len() && 0 <= j < pre.states@[i].memos@.len()
                        && !subs_has_memo_at(subs@.take(k as int), i, j) ==> (#[trigger] rt.states@[i].memos@[j]).dirty
                        == pre.states@[i].memos@[j].dirty
                &&& forall|kk: int|
                    0 <= kk < k ==> match #[trigger] subs@[kk] {
                        Subscriber::Memo(mh) => pre.live_memo(mh) ==> rt.memo_dirty(mh),
                        _ => true,
                    }
            },
            forall|eh: EffectHandle|
                lone_effect(subs@, eh) && #[trigger] pre.live_effect(
                    eh,
                ) && memo_free(pre.eff_expr(eh)) && size(pre.eff_expr(eh)) + 2 <= fuel ==> {
                    &&& memos_quiet(pre, *rt)
                    &&& match pure_eval(pre, pre.eff_expr(eh)) {
                        Ok(v) => {
                            &&& (lone_pos(subs@, eh) >= k ==> forall|i: int, j: int|
                                0 <= i < pre.states@.len() && 0 <= j
                                    < pre.states@[i].effects@.len() ==> (#[trigger] rt.states@[i].effects@[j]).history@
                                    == pre.states@[i].effects@[j].history@)
                            &&& (lone_pos(subs@, eh) < k ==> {
                                &&& rt.eff_log(eh) == pre.eff_log(eh).push(v)
                                &&& forall|i: int, j: int|
                                    0 <= i < pre.states@.len() && 0 <= j
                                        < pre.states@[i].effects@.len() && !(i
                                        == eh.scope.idx as int && j == eh.id as int) ==> (
                                    #[trigger] rt.states@[i].effects@[j]).history@
                                        == pre.states@[i].effects@[j].history@
                            })
                        },
                        Err(_) => lone_pos(subs@, eh) >= k && (forall|i: int, j: int|
                            0 <= i < pre.states@.len() && 0 <= j < pre.states@[i].effects@.len()
                                ==> (#[trigger] rt.states@[i].effects@[j]).history@
                                == pre.states@[i].effects@[j].history@),
                    }
                },
        decreases n - k,
    {
        let ghost loop_pre = *rt;
        match subs[k] {
            Subscriber::Effect(eh) => {
                if fuel == 0 {
                    return Err(Fault::Exhausted);
                }
                let res = run_effect(rt, eh, fuel - 1);
                proof {
                    lemma_grows_trans(pre, loop_pre, *rt);
                    assert forall|eh2: EffectHandle|
                        lone_effect(subs@, eh2) && #[trigger] pre.live_effect(eh2) && memo_free(
                            pre.eff_expr(eh2),
                        ) && size(pre.eff_expr(eh2)) + 2 <= fuel implies {
                        &&& eh2 == eh
                        &&& lone_pos(subs@, eh2) == k as int
                        &&& loop_pre.live_effect(eh2)
                        &&& memo_free(loop_pre.eff_expr(eh2))
                        &&& pure_eval(loop_pre, loop_pre.eff_expr(eh2)) == pure_eval(
                            pre,
                            pre.eff_expr(eh2),
                        )
                    } by {
                        let p = lone_pos(subs@, eh2);
                        assert(0 <= p < subs@.len() && subs@[p] == Subscriber::Effect(eh2)
                            && (forall|kk: int|
                            0 <= kk < subs@.len() && kk != p ==> (#[trigger] subs@[kk]) is Memo));
                        assert(subs@[k as int] == Subscriber::Effect(eh));
                        assert(p == k as int);
                        lemma_pure_eval_stable(pre, loop_pre, pre.eff_expr(eh2));
                    }
                }
                match res {
                    Ok(()) => {},
                    Err(f) => {
                        return Err(f);
                    },
                }
            },
            Subscriber::Memo(mh) => {
                match rt.resolve(mh.scope) {
                    Some(mi) => {
                        proof {
                            assert((mi as int) < rt.n());
                        }
                        if mh.id < rt.states[mi].memos.len() {
                            let st = &mut rt.states[mi];
                            let m = &mut st.memos[mh.id];
                            m.dirty = true;
                        }
                    },
                    None => {},
                }
                proof {
                    lemma_grows_same_cells_dirty(loop_pre, *rt);
                    lemma_same_tree_wf(loop_pre, *rt);
                    lemma_grows_trans(pre, loop_pre, *rt);
                }
            },
        }
        proof {
            if all_memos(subs@) {
                assert(subs@.take(k as int + 1)[k as int] == subs@[k as int]);
                assert forall|i: int, j: int|
                    0 <= i < pre.states@.len() && 0 <= j < pre.states@[i].memos@.len()
                        && !subs_has_memo_at(subs@.take(k as int + 1), i, j) implies (
                    #[trigger] rt.states@[i].memos@[j]).dirty
                    == pre.states@[i].memos@[j].dirty by {
                    assert forall|kk: int|
                        0 <= kk < k implies !is_memo_at(subs@.take(k as int)[kk], i, j) by {
                        assert(subs@.take(k as int + 1)[kk] == subs@[kk]);
                        assert(subs@.take(k as int)[kk] == subs@[kk]);
                        if is_memo_at(subs@[kk], i, j) {
                            assert(is_memo_at(subs@.take(k as int + 1)[kk], i, j));
                            assert(subs_has_memo_at(subs@.take(k as int + 1), i, j));
                        }
                    }
                    assert(!subs_has_memo_at(subs@.take(k as int), i, j));
                    if is_memo_at(subs@[k as int], i, j) {
                        assert(subs_has_memo_at(subs@.take(k as int + 1), i, j));
                    }
                }
            }
        }
        k += 1;
    }
    Ok(())
}

/// Marking dirty flags changes neither the tree shape nor any subscriber
/// list or history.
pub proof fn lemma_grows_same_cells_dirty(a: Runtime, b: Runtime)
    requires
        b.slots == a.slots,
        b.states@.len() == a.states@.len(),
        forall|i: int|
            0 <= i < a.states@.len() ==> {
                &&& (#[trigger] b.states@[i]).parent == a.states@[i].parent
                &&& b.states@[i].children == a.states@[i].children
                &&& b.states@[i].contexts == a.states@[i].contexts
                &&& b.states@[i].signals == a.states@[i].signals
                &&& b.states@[i].effects == a.states@[i].effects
                &&& b.states@[i].memos@.len() == a.states@[i].memos@.len()
            },
        forall|i: int, j: int|
            0 <= i < a.states@.len() && 0 <= j < a.states@[i].memos@.len() ==> {
                &&& (#[trigger] b.states@[i].memos@[j]).expr == a.states@[i].memos@[j].expr
                &&& b.states@[i].memos@[j].history == a.states@[i].memos@[j].history
                &&& b.states@[i].memos@[j].subscribers == a.states@[i].memos@[j].subscribers
            },
    ensures
        grows(a, b),
{
    lemma_grows_refl(a);
    assert forall|i: int, j: int|
        0 <= i < a.states@.len() && 0 <= j < a.states@[i].signals@.len()
            implies a.states@[i].signals@[j].subscribers@.is_prefix_of(
        (#[trigger] b.states@[i].signals@[j]).subscribers@,
    ) by {
        assert(b.states@[i].signals@[j] == a.states@[i].signals@[j]);
    }
    assert forall|i: int, j: int|
        0 <= i < a.states@.len() && 0 <= j < a.states@[i].effects@.len()
            implies a.states@[i].effects@[j].history@.is_prefix_of(
        (#[trigger] b.states@[i].effects@[j]).history@,
    ) by {
        assert(b.states@[i].effects@[j] == a.states@[i].effects@[j]);
    }
}

impl Runtime {
    /// Run a computation untracked: the tracking stack is replaced by an
    /// empty one for the duration, so no read inside registers any
    /// dependency, and the prior stack is restored afterwards on every
    /// path. Dependencies established before the call are unaffected.
    pub fn untrack(&mut self, e: &Expr) -> (r: Result<Value, Fault>)
        requires
            old(self).wf(),
        ensures
            final(self).wf(),
            final(self).stack@ == old(self).stack@,
            grows(*old(self), *final(self)),
            memo_free(*e) && size(*e) <= MAX_EVAL_DEPTH ==> {
                &&& r == pure_eval(*old(self), *e)
                &&& *final(self) == *old(self)
            },
    {
        let mut saved: Vec<Subscriber> = Vec::new();
        core::mem::swap(&mut saved, &mut self.stack);
        let ghost mid0 = *self;
        proof {
            lemma_wf_same_cells(*old(self), mid0);
            lemma_grows_same_cells(*old(self), mid0);
        }
        let r = eval(self, e, MAX_EVAL_DEPTH);
        let ghost mid1 = *self;
        core::mem::swap(&mut saved, &mut self.stack);
        proof {
            lemma_wf_same_cells(mid1, *self);
            lemma_grows_same_cells(mid1, *self);
            lemma_grows_trans(*old(self), mid0, mid1);
            lemma_grows_trans(*old(self), mid1, *self);
            if memo_free(*e) && size(*e) <= MAX_EVAL_DEPTH {
                lemma_pure_eval_stable(*old(self), mid0, *e);
            }
        }
        r
    }
}

/// Run a computation with dependency registration fully suppressed: see
/// `Runtime::untrack`.
pub fn run_untracked(rt: &mut Runtime, e: &Expr) -> (r: Result<Value, Fault>)
    requires
        old(rt).wf(),
    ensures
        final(rt).wf(),
        final(rt).stack@ == old(rt).stack@,
        grows(*old(rt), *final(rt)),
        memo_free(*e) && size(*e) <= MAX_EVAL_DEPTH ==> {
            &&& r == pure_eval(*old(rt), *e)
            &&& *final(rt) == *old(rt)
        },
{
    rt.untrack(e)
}

} // verus!
