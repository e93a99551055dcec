//! Effects: side-effecting subscribers, terminal nodes of the dependency
//! graph.

use vstd::prelude::*;
use crate::handles::{Scope, EffectHandle, Fault};
use crate::state::{EffectState, Expr, memo_free, size};
use crate::runtime::Runtime;
use crate::value::Value;
use crate::engine::{run_effect, pure_eval, lemma_pure_eval_values, MAX_EVAL_DEPTH};

verus! {

/// Create an effect in `scope` running `expr`: it runs once immediately
/// under tracking (capturing its initial dependency set and recording its
/// first run), then re-runs synchronously whenever a tracked dependency
/// changes. Nothing can subscribe to an effect.
pub fn create_effect(rt: &mut Runtime, scope: Scope, expr: Expr) -> (r: Result<
    EffectHandle,
    Fault,
>)
    requires
        old(rt).wf(),
    ensures
        final(rt).wf(),
        final(rt).stack@ == old(rt).stack@,
        !old(rt).live(scope) ==> *final(rt) == *old(rt) && r == Err::<EffectHandle, Fault>(
            Fault::Dangling,
        ),
        old(rt).live(scope) && memo_free(expr) && size(expr) + 2 <= MAX_EVAL_DEPTH ==> {
            match pure_eval(*old(rt), expr) {
                Ok(v) => {
                    match r {
                        Ok(h) => {
                            &&& h.scope == scope
                            &&& h.id as int == old(rt).st(scope.idx as int).effects@.len()
                            &&& final(rt).live_effect(h)
                            &&& final(rt).eff_expr(h) == expr
                            &&& final(rt).eff_log(h) == seq![v]
                            &&& forall|i: int, j: int|
                                0 <= i < old(rt).states@.len() && 0 <= j < old(rt).states@[i].effects@.len() ==> (#[trigger] final(rt).states@[i].effects@[j]).history@
                                    == old(rt).states@[i].effects@[j].history@
                        },
                        Err(_) => false,
                    }
                },
                Err(f) => r == Err::<EffectHandle, Fault>(f),
            }
        },
{
    let i = match rt.resolve(scope) {
        Some(i) => i,
        None => {
            return Err(Fault::Dangling);
        },
    };
    proof {
        assert((i as int) < rt.n());
    }
    let id = rt.states[i].effects.len();
    {
        let st = &mut rt.states[i];
        st.effects.push(EffectState { expr, history: Vec::new() });
    }
    let h = EffectHandle { scope, id };
    let ghost mid = *rt;
    proof {
        let pre = *old(rt);
        let post = *rt;
        assert forall|ii: int| 0 <= ii < post.n() implies #[trigger] post.scope_wf(ii) by {
            assert(pre.scope_wf(ii));
            match post.st(ii).parent {
                Some(q) => {
                    let c = choose|c: int|
                        0 <= c < pre.st(q as int).children@.len() && (#[trigger] pre.st(
                            q as int,
                        ).children@[c]).idx as int == ii;
                    assert(post.st(q as int).children@[c] == pre.st(q as int).children@[c]);
                },
                None => {},
            }
            assert forall|c: int| 0 <= c < post.st(ii).children@.len() implies post.child_ok(
                ii,
                #[trigger] post.st(ii).children@[c],
            ) by {
                assert(pre.child_ok(ii, pre.st(ii).children@[c]));
            }
        }
        if memo_free(expr) {
            lemma_pure_eval_values(*old(rt), mid, expr);
        }
    }
    let res = run_effect(rt, h, MAX_EVAL_DEPTH);
    match res {
        Ok(()) => {
            proof {
                if old(rt).live(scope) && memo_free(expr) && size(expr) + 2 <= MAX_EVAL_DEPTH {
                    assert(mid.live_effect(h));
                    assert(mid.eff_log(h) == Seq::<Value>::empty());
                    let pv = pure_eval(mid, expr);
                    if pv is Ok {
                        let v = pv->Ok_0;
                        assert(rt.eff_log(h) == Seq::<Value>::empty().push(v));
                        assert(rt.eff_log(h) =~= seq![v]);
                    }
                }
            }
            Ok(h)
        },
        Err(f) => Err(f),
    }
}

impl Runtime {
    /// Erased probe of an effect: its last-seen value, `None` before the
    /// first run.
    pub fn any_effect(&self, h: EffectHandle) -> (r: Result<Option<Value>, Fault>)
        requires
            self.wf(),
        ensures
            r is Ok <==> self.live_effect(h),
            r is Err ==> r == Err::<Option<Value>, Fault>(Fault::Dangling),
            r matches Ok(v) ==> v == (if self.eff_log(h).len() > 0 {
                Some(self.eff_log(h).last())
            } else {
                None::<Value>
            }),
    {
        let i = match self.resolve(h.scope) {
            Some(i) => i,
            None => {
                return Err(Fault::Dangling);
            },
        };
        proof {
            assert((i as int) < self.n());
        }
        if h.id >= self.states[i].effects.len() {
            return Err(Fault::Dangling);
        }
        let len = self.states[i].effects[h.id].history.len();
        if len > 0 {
            Ok(Some(self.states[i].effects[h.id].history[len - 1].clone()))
        } else {
            Ok(None)
        }
    }

    /// How many times an effect has run: the observable record of its side
    /// effects.
    pub fn effect_runs(&self, h: EffectHandle) -> (r: Result<usize, Fault>)
        requires
            self.wf(),
        ensures
            r is Ok <==> self.live_effect(h),
            r matches Ok(c) ==> c as int == self.eff_log(h).len(),
            r is Err ==> r == Err::<usize, Fault>(Fault::Dangling),
    {
        let i = match self.resolve(h.scope) {
            Some(i) => i,
            None => {
                return Err(Fault::Dangling);
            },
        };
        proof {
            assert((i as int) < self.n());
        }
        if h.id >= self.states[i].effects.len() {
            return Err(Fault::Dangling);
        }
        Ok(self.states[i].effects[h.id].history.len())
    }

    /// The value recorded by one run of an effect.
    pub fn effect_run_at(&self, h: EffectHandle, k: usize) -> (r: Result<Value, Fault>)
        requires
            self.wf(),
        ensures
            r is Ok <==> self.live_effect(h) && (k as int) < self.eff_log(h).len(),
            r matches Ok(v) ==> v == self.eff_log(h)[k as int],
            r is Err ==> r == Err::<Value, Fault>(Fault::Dangling),
    {
        let i = match self.resolve(h.scope) {
            Some(i) => i,
            None => {
                return Err(Fault::Dangling);
            },
        };
        proof {
            assert((i as int) < self.n());
        }
        if h.id >= self.states[i].effects.len() {
            return Err(Fault::Dangling);
        }
        if k >= self.states[i].effects[h.id].history.len() {
            return Err(Fault::Dangling);
        }
        Ok(self.states[i].effects[h.id].history[k].clone())
    }
}

} // verus!
