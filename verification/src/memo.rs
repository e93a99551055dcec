//! Memos: derived, cached, lazily recomputed reactive values.

use vstd::prelude::*;
use crate::handles::{Scope, MemoHandle, Fault};
use crate::state::{MemoState, Expr, memo_free, size};
use crate::runtime::Runtime;
use crate::value::{Value, ValueKind, kind_of, veq};
use crate::engine::{read_memo, pure_eval, eff_logs_unchanged, MAX_EVAL_DEPTH};

verus! {

/// Create a memo in `scope` computing `expr`. The memo starts dirty and is
/// first computed on its first read — recomputation is lazy throughout.
pub fn create_memo(rt: &mut Runtime, scope: Scope, expr: Expr) -> (r: Result<MemoHandle, Fault>)
    requires
        old(rt).wf(),
    ensures
        final(rt).wf(),
        r is Ok <==> old(rt).live(scope),
        !old(rt).live(scope) ==> *final(rt) == *old(rt) && r == Err::<MemoHandle, Fault>(
            Fault::Dangling,
        ),
        r matches Ok(h) ==> {
            &&& h.scope == scope
            &&& h.id as int == old(rt).st(scope.idx as int).memos@.len()
            &&& final(rt).live_memo(h)
            &&& final(rt).memo_expr(h) == expr
            &&& final(rt).memo_dirty(h)
            &&& final(rt).memo_log(h).len() == 0
            &&& final(rt).memo_subs(h).len() == 0
            &&& final(rt).smap() == old(rt).smap()
            &&& final(rt).stack == old(rt).stack
            &&& final(rt).n() == old(rt).n()
            &&& forall|i: int|
                0 <= i < old(rt).n() && i != scope.idx as int ==> final(rt).st(i) == old(rt).st(
                    i,
                )
            &&& final(rt).st(scope.idx as int).memos@ == old(rt).st(
                scope.idx as int,
            ).memos@.push(final(rt).memo_st(h))
            &&& final(rt).st(scope.idx as int).signals == old(rt).st(scope.idx as int).signals
            &&& final(rt).st(scope.idx as int).effects == old(rt).st(scope.idx as int).effects
            &&& final(rt).st(scope.idx as int).contexts == old(rt).st(scope.idx as int).contexts
            &&& final(rt).st(scope.idx as int).children == old(rt).st(scope.idx as int).children
            &&& final(rt).st(scope.idx as int).parent == old(rt).st(scope.idx as int).parent
        },
{
    let i = match rt.resolve(scope) {
        Some(i) => i,
        None => {
            return Err(Fault::Dangling);
        },
    };
    proof {
        assert((i as int) < rt.n());
    }
    let id = rt.states[i].memos.len();
    {
        let st = &mut rt.states[i];
        st.memos.push(
            MemoState { expr, dirty: true, history: Vec::new(), subscribers: Vec::new() },
        );
    }
    let h = MemoHandle { scope, id };
    proof {
        let pre = *old(rt);
        let post = *rt;
        assert forall|ii: int| 0 <= ii < post.n() implies #[trigger] post.scope_wf(ii) by {
            assert(pre.scope_wf(ii));
            match post.st(ii).parent {
                Some(q) => {
                    let c = choose|c: int|
                        0 <= c < pre.st(q as int).children@.len() && (#[trigger] pre.st(
                            q as int,
                        ).children@[c]).idx as int == ii;
                    assert(post.st(q as int).children@[c] == pre.st(q as int).children@[c]);
                },
                None => {},
            }
            assert forall|c: int| 0 <= c < post.st(ii).children@.len() implies post.child_ok(
                ii,
                #[trigger] post.st(ii).children@[c],
            ) by {
                assert(pre.child_ok(ii, pre.st(ii).children@[c]));
            }
        }
    }
    Ok(h)
}

/// Read a memo: recompute only if dirty or never computed (exactly once per
/// read), register the running subscriber as a dependent, and return the
/// cached value. A clean cached read with an empty stack changes nothing.
pub fn memo_get(rt: &mut Runtime, h: MemoHandle) -> (r: Result<Value, Fault>)
    requires
        old(rt).wf(),
    ensures
        final(rt).wf(),
        final(rt).stack@ == old(rt).stack@,
        !old(rt).live_memo(h) ==> *final(rt) == *old(rt) && r == Err::<Value, Fault>(
            Fault::Dangling,
        ),
        // lazy cache hit: no recomputation, nothing changes
        old(rt).live_memo(h) && !old(rt).memo_dirty(h) && old(rt).memo_log(h).len() > 0 && old(rt).stack@.len() == 0 ==> {
            &&& r == Ok::<Value, Fault>(old(rt).memo_log(h).last())
            &&& *final(rt) == *old(rt)
        },
        // lazy cache hit under tracking: the running subscriber is
        // registered as a dependent of the memo, idempotently
        old(rt).live_memo(h) && !old(rt).memo_dirty(h) && old(rt).memo_log(h).len() > 0 && old(rt).stack@.len() > 0 ==> {
            &&& r == Ok::<Value, Fault>(old(rt).memo_log(h).last())
            &&& final(rt).memo_log(h) == old(rt).memo_log(h)
            &&& eff_logs_unchanged(*old(rt), *final(rt))
            &&& final(rt).memo_subs(h) == (if old(rt).memo_subs(h).contains(
                old(rt).stack@.last(),
            ) {
                old(rt).memo_subs(h)
            } else {
                old(rt).memo_subs(h).push(old(rt).stack@.last())
            })
        },
        // a dirty (or first) read recomputes exactly once
        old(rt).live_memo(h) && (old(rt).memo_dirty(h) || old(rt).memo_log(h).len() == 0)
            && memo_free(old(rt).memo_expr(h)) && size(old(rt).memo_expr(h)) + 2
            <= MAX_EVAL_DEPTH ==> {
            match pure_eval(*old(rt), old(rt).memo_expr(h)) {
                Ok(v) => {
                    &&& (old(rt).memo_subs(h).len() == 0 ==> {
                        &&& r == Ok::<Value, Fault>(v)
                        &&& final(rt).memo_log(h) == old(rt).memo_log(h).push(v)
                        &&& !final(rt).memo_dirty(h)
                        &&& eff_logs_unchanged(*old(rt), *final(rt))
                    })
                    &&& (old(rt).memo_log(h).len() > 0 && veq(v, old(rt).memo_log(h).last())
                        ==> {
                        &&& r == Ok::<Value, Fault>(v)
                        &&& final(rt).memo_log(h) == old(rt).memo_log(h).push(v)
                        &&& !final(rt).memo_dirty(h)
                        &&& eff_logs_unchanged(*old(rt), *final(rt))
                    })
                },
                Err(f) => r == Err::<Value, Fault>(f),
            }
        },
{
    read_memo(rt, h, MAX_EVAL_DEPTH)
}

impl Runtime {
    /// Erased probe of a memo: the type tag of its cached value, `None`
    /// before the first computation. Never recomputes.
    pub fn any_memo(&self, h: MemoHandle) -> (r: Result<Option<ValueKind>, Fault>)
        requires
            self.wf(),
        ensures
            r is Ok <==> self.live_memo(h),
            r is Err ==> r == Err::<Option<ValueKind>, Fault>(Fault::Dangling),
            r matches Ok(k) ==> k == (if self.memo_log(h).len() > 0 {
                Some(kind_of(self.memo_log(h).last()))
            } else {
                None::<ValueKind>
            }),
    {
        let i = match self.resolve(h.scope) {
            Some(i) => i,
            None => {
                return Err(Fault::Dangling);
            },
        };
        proof {
            assert((i as int) < self.n());
        }
        if h.id >= self.states[i].memos.len() {
            return Err(Fault::Dangling);
        }
        let len = self.states[i].memos[h.id].history.len();
        if len > 0 {
            Ok(Some(crate::value::value_kind(&self.states[i].memos[h.id].history[len - 1])))
        } else {
            Ok(None)
        }
    }

    /// Typed untracked peek at a memo's cached value: `None` before the
    /// first computation; a tag mismatch is fatal. Never recomputes.
    pub fn memo(&self, h: MemoHandle, expected: ValueKind) -> (r: Result<Option<Value>, Fault>)
        requires
            self.wf(),
        ensures
            !self.live_memo(h) ==> r == Err::<Option<Value>, Fault>(Fault::Dangling),
            self.live_memo(h) && self.memo_log(h).len() == 0 ==> r == Ok::<
                Option<Value>,
                Fault,
            >(None),
            self.live_memo(h) && self.memo_log(h).len() > 0 && kind_of(self.memo_log(h).last())
                != expected ==> r == Err::<Option<Value>, Fault>(Fault::TypeMismatch),
            self.live_memo(h) && self.memo_log(h).len() > 0 && kind_of(self.memo_log(h).last())
                == expected ==> r == Ok::<Option<Value>, Fault>(Some(self.memo_log(h).last())),
    {
        let i = match self.resolve(h.scope) {
            Some(i) => i,
            None => {
                return Err(Fault::Dangling);
            },
        };
        proof {
            assert((i as int) < self.n());
        }
        if h.id >= self.states[i].memos.len() {
            return Err(Fault::Dangling);
        }
        let len = self.states[i].memos[h.id].history.len();
        if len == 0 {
            return Ok(None);
        }
        let k = crate::value::value_kind(&self.states[i].memos[h.id].history[len - 1]);
        if k == expected {
            Ok(Some(self.states[i].memos[h.id].history[len - 1].clone()))
        } else {
            Err(Fault::TypeMismatch)
        }
    }

    /// How many times a memo has been computed: the observable trace of its
    /// lazy recomputation.
    pub fn memo_runs(&self, h: MemoHandle) -> (r: Result<usize, Fault>)
        requires
            self.wf(),
        ensures
            r is Ok <==> self.live_memo(h),
            r matches Ok(c) ==> c as int == self.memo_log(h).len(),
            r is Err ==> r == Err::<usize, Fault>(Fault::Dangling),
    {
        let i = match self.resolve(h.scope) {
            Some(i) => i,
            None => {
                return Err(Fault::Dangling);
            },
        };
        proof {
            assert((i as int) < self.n());
        }
        if h.id >= self.states[i].memos.len() {
            return Err(Fault::Dangling);
        }
        Ok(self.states[i].memos[h.id].history.len())
    }
}

} // verus!
