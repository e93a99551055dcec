//! Signals: mutable reactive value cells.

use vstd::prelude::*;
use crate::handles::{Scope, SignalHandle, Subscriber, Fault};
use crate::state::{SignalState, Expr, memo_free, size};
use crate::runtime::Runtime;
use crate::value::{Value, ValueKind, kind_of};
use crate::engine::{
    read_signal, notify, copy_subs, all_memos, lone_effect, eff_logs_unchanged, memos_quiet,
    sig_subs_exact, subs_has_memo_at, pure_eval, same_tree, MAX_EVAL_DEPTH,
};

verus! {

/// Create a signal in `scope` holding `initial`. The handle both reads and
/// writes the cell.
pub fn create_signal(rt: &mut Runtime, scope: Scope, initial: Value) -> (r: Result<
    SignalHandle,
    Fault,
>)
    requires
        old(rt).wf(),
    ensures
        final(rt).wf(),
        r is Ok <==> old(rt).live(scope),
        !old(rt).live(scope) ==> *final(rt) == *old(rt) && r == Err::<SignalHandle, Fault>(
            Fault::Dangling,
        ),
        r matches Ok(h) ==> {
            &&& h.scope == scope
            &&& h.id as int == old(rt).st(scope.idx as int).signals@.len()
            &&& final(rt).live_signal(h)
            &&& final(rt).sig_val(h) == initial
            &&& final(rt).sig_subs(h).len() == 0
            &&& final(rt).smap() == old(rt).smap()
            &&& final(rt).stack == old(rt).stack
            &&& final(rt).n() == old(rt).n()
            &&& forall|i: int|
                0 <= i < old(rt).n() && i != scope.idx as int ==> final(rt).st(i) == old(rt).st(
                    i,
                )
            &&& final(rt).st(scope.idx as int).signals@ == old(rt).st(
                scope.idx as int,
            ).signals@.push(final(rt).sig(h))
            &&& final(rt).st(scope.idx as int).memos == old(rt).st(scope.idx as int).memos
            &&& final(rt).st(scope.idx as int).effects == old(rt).st(scope.idx as int).effects
            &&& final(rt).st(scope.idx as int).contexts == old(rt).st(scope.idx as int).contexts
            &&& final(rt).st(scope.idx as int).children == old(rt).st(scope.idx as int).children
            &&& final(rt).st(scope.idx as int).parent == old(rt).st(scope.idx as int).parent
        },
{
    let i = match rt.resolve(scope) {
        Some(i) => i,
        None => {
            return Err(Fault::Dangling);
        },
    };
    proof {
        assert((i as int) < rt.n());
    }
    let id = rt.states[i].signals.len();
    {
        let st = &mut rt.states[i];
        st.signals.push(SignalState { value: initial, subscribers: Vec::new() });
    }
    let h = SignalHandle { scope, id };
    proof {
        let pre = *old(rt);
        let post = *rt;
        assert forall|ii: int| 0 <= ii < post.n() implies #[trigger] post.scope_wf(ii) by {
            assert(pre.scope_wf(ii));
            match post.st(ii).parent {
                Some(q) => {
                    let c = choose|c: int|
                        0 <= c < pre.st(q as int).children@.len() && (#[trigger] pre.st(
                            q as int,
                        ).children@[c]).idx as int == ii;
                    assert(post.st(q as int).children@[c] == pre.st(q as int).children@[c]);
                },
                None => {},
            }
            assert forall|c: int| 0 <= c < post.st(ii).children@.len() implies post.child_ok(
                ii,
                #[trigger] post.st(ii).children@[c],
            ) by {
                assert(pre.child_ok(ii, pre.st(ii).children@[c]));
            }
        }
    }
    Ok(h)
}

/// Read a signal: registers the running subscriber (if any) as a dependent,
/// idempotently, and returns the current value. A read with an empty
/// tracking stack changes nothing at all.
pub fn signal_get(rt: &mut Runtime, h: SignalHandle) -> (r: Result<Value, Fault>)
    requires
        old(rt).wf(),
    ensures
        final(rt).wf(),
        final(rt).stack@ == old(rt).stack@,
        r is Ok <==> old(rt).live_signal(h),
        !old(rt).live_signal(h) ==> *final(rt) == *old(rt) && r == Err::<Value, Fault>(
            Fault::Dangling,
        ),
        old(rt).live_signal(h) ==> {
            &&& r == Ok::<Value, Fault>(old(rt).sig_val(h))
            &&& (old(rt).stack@.len() == 0 ==> *final(rt) == *old(rt))
            &&& (old(rt).stack@.len() > 0 ==> {
                &&& forall|i: int, j: int|
                    0 <= i < old(rt).states@.len() && 0 <= j < old(rt).states@[i].signals@.len()
                        && !(i == h.scope.idx as int && j == h.id as int) ==> (#[trigger] final(rt).states@[i].signals@[j]).subscribers@
                        == old(rt).states@[i].signals@[j].subscribers@
                &&& final(rt).sig_subs(h) == (if old(rt).sig_subs(h).contains(
                    old(rt).stack@.last(),
                ) {
                    old(rt).sig_subs(h)
                } else {
                    old(rt).sig_subs(h).push(old(rt).stack@.last())
                })
                &&& same_tree(*old(rt), *final(rt))
            })
        },
{
    read_signal(rt, h)
}

/// Write a signal: store the value, then notify every registered dependent,
/// in registration order — effects re-run immediately and synchronously;
/// memos are only marked dirty. The write returns only once the reactive
/// graph is closed again.
pub fn signal_set(rt: &mut Runtime, h: SignalHandle, v: Value) -> (r: Result<(), Fault>)
    requires
        old(rt).wf(),
    ensures
        final(rt).wf(),
        final(rt).stack@ == old(rt).stack@,
        !old(rt).live_signal(h) ==> *final(rt) == *old(rt) && r == Err::<(), Fault>(
            Fault::Dangling,
        ),
        old(rt).live_signal(h) ==> {
            &&& final(rt).live_signal(h)
            &&& final(rt).sig_val(h) == v
            &&& final(rt).smap() == old(rt).smap()
            &&& final(rt).n() == old(rt).n()
            &&& forall|i: int, j: int|
                0 <= i < old(rt).states@.len() && 0 <= j < old(rt).states@[i].signals@.len()
                    && !(i == h.scope.idx as int && j == h.id as int) ==> (#[trigger] final(rt).states@[i].signals@[j]).value == old(rt).states@[i].signals@[j].value
            // no recorded run is ever erased, and no dependent is ever
            // unregistered, by a write
            &&& forall|i: int, j: int|
                0 <= i < old(rt).states@.len() && 0 <= j < old(rt).states@[i].effects@.len()
                    ==> old(rt).states@[i].effects@[j].history@.is_prefix_of(
                    (#[trigger] final(rt).states@[i].effects@[j]).history@,
                )
            &&& forall|i: int, j: int|
                0 <= i < old(rt).states@.len() && 0 <= j < old(rt).states@[i].memos@.len()
                    ==> old(rt).states@[i].memos@[j].history@.is_prefix_of(
                    (#[trigger] final(rt).states@[i].memos@[j]).history@,
                )
            &&& forall|i: int, j: int|
                0 <= i < old(rt).states@.len() && 0 <= j < old(rt).states@[i].signals@.len()
                    ==> old(rt).states@[i].signals@[j].subscribers@.is_prefix_of(
                    (#[trigger] final(rt).states@[i].signals@[j]).subscribers@,
                )
            // laziness: with only memo dependents nothing re-runs and
            // nothing recomputes; the dependents are only marked dirty
            &&& (all_memos(old(rt).sig_subs(h)) ==> {
                &&& r is Ok
                &&& eff_logs_unchanged(*old(rt), *final(rt))
                &&& memos_quiet(*old(rt), *final(rt))
                &&& sig_subs_exact(*old(rt), *final(rt))
                &&& forall|i: int, j: int|
                    0 <= i < old(rt).states@.len() && 0 <= j < old(rt).states@[i].memos@.len()
                        && !subs_has_memo_at(old(rt).sig_subs(h), i, j) ==> (#[trigger] final(rt).states@[i].memos@[j]).dirty == old(rt).states@[i].memos@[j].dirty
                &&& forall|k: int|
                    0 <= k < old(rt).sig_subs(h).len() ==> match #[trigger] old(rt).sig_subs(
                        h,
                    )[k] {
                        Subscriber::Memo(mh) => old(rt).live_memo(mh) ==> final(rt).memo_dirty(
                            mh,
                        ),
                        _ => true,
                    }
            })
            // a lone effect reading this signal directly — among any
            // number of memo dependents — re-runs exactly once, with the
            // new value visible in its run
            &&& (forall|eh: crate::handles::EffectHandle|
                lone_effect(old(rt).sig_subs(h), eh) && #[trigger] old(rt).live_effect(eh) && old(rt).eff_expr(eh) == Expr::ReadSignal(h) ==> {
                    &&& r is Ok
                    &&& final(rt).eff_log(eh) == old(rt).eff_log(eh).push(v)
                    &&& forall|i: int, j: int|
                        0 <= i < old(rt).states@.len() && 0 <= j < old(rt).states@[i].effects@.len()
                            && !(i == eh.scope.idx as int && j == eh.id as int) ==> (
                        #[trigger] final(rt).states@[i].effects@[j]).history@
                            == old(rt).states@[i].effects@[j].history@
                })
        },
{
    let i = match rt.resolve(h.scope) {
        Some(i) => i,
        None => {
            return Err(Fault::Dangling);
        },
    };
    proof {
        assert((i as int) < rt.n());
    }
    if h.id >= rt.states[i].signals.len() {
        return Err(Fault::Dangling);
    }
    {
        let st = &mut rt.states[i];
        let sg = &mut st.signals[h.id];
        sg.value = v;
    }
    let ghost mid = *rt;
    proof {
        lemma_same_tree_wf_general(*old(rt), mid);
    }
    let subs_copy = copy_subs(&rt.states[i].signals[h.id].subscribers);
    proof {
        assert(subs_copy@ == old(rt).sig_subs(h));
    }
    let res = notify(rt, &subs_copy, MAX_EVAL_DEPTH);
    proof {
        assert forall|eh: crate::handles::EffectHandle|
            lone_effect(old(rt).sig_subs(h), eh) && #[trigger] old(rt).live_effect(
                eh,
            ) && old(rt).eff_expr(eh) == Expr::ReadSignal(h) implies {
            &&& res is Ok
            &&& rt.eff_log(eh) == old(rt).eff_log(eh).push(v)
            &&& forall|i: int, j: int|
                0 <= i < old(rt).states@.len() && 0 <= j < old(rt).states@[i].effects@.len() && !(i
                    == eh.scope.idx as int && j == eh.id as int) ==> (#[trigger] rt.states@[i].effects@[j]).history@
                    == old(rt).states@[i].effects@[j].history@
        } by {
            assert(mid.live_effect(eh));
            assert(lone_effect(subs_copy@, eh));
            assert(memo_free(mid.eff_expr(eh)));
            assert(size(mid.eff_expr(eh)) == 1);
            assert(mid.live_signal(h) && mid.sig_val(h) == v);
            assert(pure_eval(mid, mid.eff_expr(eh)) == Ok::<Value, Fault>(v));
        }
    }
    match res {
        Ok(()) => Ok(()),
        Err(f) => Err(f),
    }
}

/// Prove well-formedness across a single-value store.
proof fn lemma_same_tree_wf_general(a: Runtime, b: Runtime)
    requires
        a.wf(),
        b.smap() == a.smap(),
        b.states@.len() == a.states@.len(),
        forall|i: int|
            0 <= i < a.states@.len() ==> (#[trigger] b.states@[i]).parent == a.states@[i].parent
                && b.states@[i].children@ == a.states@[i].children@,
    ensures
        b.wf(),
{
    assert forall|i: int| 0 <= i < b.n() implies #[trigger] b.scope_wf(i) by {
        assert(a.scope_wf(i));
        match b.st(i).parent {
            Some(q) => {
                let c = choose|c: int|
                    0 <= c < a.st(q as int).children@.len() && (#[trigger] a.st(
                        q as int,
                    ).children@[c]).idx as int == i;
                assert(b.st(q as int).children@[c] == a.st(q as int).children@[c]);
            },
            None => {},
        }
        assert forall|c: int| 0 <= c < b.st(i).children@.len() implies b.child_ok(
            i,
            #[trigger] b.st(i).children@[c],
        ) by {
            assert(a.child_ok(i, a.st(i).children@[c]));
            assert(b.st(i).children@[c] == a.st(i).children@[c]);
        }
    }
}

impl Runtime {
    /// Erased probe of a signal: the type tag of what it holds.
    pub fn any_signal(&self, h: SignalHandle) -> (r: Result<ValueKind, Fault>)
        requires
            self.wf(),
        ensures
            r is Ok <==> self.live_signal(h),
            r matches Ok(k) ==> k == kind_of(self.sig_val(h)),
            r is Err ==> r == Err::<ValueKind, Fault>(Fault::Dangling),
    {
        let i = match self.resolve(h.scope) {
            Some(i) => i,
            None => {
                return Err(Fault::Dangling);
            },
        };
        proof {
            assert((i as int) < self.n());
        }
        if h.id >= self.states[i].signals.len() {
            return Err(Fault::Dangling);
        }
        Ok(crate::value::value_kind(&self.states[i].signals[h.id].value))
    }

    /// Typed untracked access to a signal's state: the stored value if its
    /// tag is the expected one; a tag mismatch is fatal.
    pub fn signal(&self, h: SignalHandle, expected: ValueKind) -> (r: Result<Value, Fault>)
        requires
            self.wf(),
        ensures
            !self.live_signal(h) ==> r == Err::<Value, Fault>(Fault::Dangling),
            self.live_signal(h) && kind_of(self.sig_val(h)) != expected ==> r == Err::<
                Value,
                Fault,
            >(Fault::TypeMismatch),
            self.live_signal(h) && kind_of(self.sig_val(h)) == expected ==> r == Ok::<
                Value,
                Fault,
            >(self.sig_val(h)),
    {
        let i = match self.resolve(h.scope) {
            Some(i) => i,
            None => {
                return Err(Fault::Dangling);
            },
        };
        proof {
            assert((i as int) < self.n());
        }
        if h.id >= self.states[i].signals.len() {
            return Err(Fault::Dangling);
        }
        let k = crate::value::value_kind(&self.states[i].signals[h.id].value);
        if k == expected {
            Ok(self.states[i].signals[h.id].value.clone())
        } else {
            Err(Fault::TypeMismatch)
        }
    }
}

} // verus!
