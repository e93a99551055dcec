//! Scopes: the hierarchical ownership boundary of the reactive graph.
//!
//! A scope owns the signals, memos and effects created under it, and its
//! child scopes. Disposing a scope removes it and every descendant from the
//! runtime's arena, so that every handle created anywhere in the subtree
//! fails fatally on further access, and nothing in it ever re-runs.

use vstd::prelude::*;
use slotmap::DefaultKey;
use crate::handles::{Scope, Fault};
use crate::runtime::{Runtime, in_subtree};

verus! {

/// The disposer returned by scope creation. Disposal is explicit and owed
/// exactly once per created scope; the disposer consumes itself.
#[derive(Debug)]
pub struct ScopeDisposer {
    pub scope: Scope,
}

/// Create a fresh runtime with a root scope in it: the entry point of the
/// reactive core. Returns the runtime, the root scope's handle, and the
/// root's disposer.
pub fn create_scope() -> (r: (Runtime, Scope, ScopeDisposer))
    ensures
        r.0.wf(),
        r.0.live(r.1),
        r.2.scope == r.1,
        r.0.n() == 1,
        r.0.stack@.len() == 0,
        r.0.st(r.1.idx as int).parent is None,
        r.0.st(r.1.idx as int).signals@.len() == 0,
        r.0.st(r.1.idx as int).memos@.len() == 0,
        r.0.st(r.1.idx as int).effects@.len() == 0,
        r.0.st(r.1.idx as int).children@.len() == 0,
        r.0.st(r.1.idx as int).contexts@.len() == 0,
{
    let mut rt = Runtime::new();
    let res = rt.create_scope(None);
    match res {
        Ok((s, d)) => (rt, s, d),
        Err(_) => {
            proof {
                assert(false);
            }
            vstd::pervasive::unreached()
        },
    }
}

impl Scope {
    /// Create a genuine child scope of this one, with its own identity,
    /// registered in this scope's child list.
    pub fn child_scope(self, rt: &mut Runtime) -> (r: Result<(Scope, ScopeDisposer), Fault>)
        requires
            old(rt).wf(),
            old(rt).n() < 0xFFFF_0000 - 1,
        ensures
            final(rt).wf(),
            r is Ok <==> old(rt).live(self),
            r is Err ==> *final(rt) == *old(rt) && r == Err::<(Scope, ScopeDisposer), Fault>(
                Fault::Dangling,
            ),
            r matches Ok((s, d)) ==> {
                &&& d.scope == s
                &&& s.idx as int == old(rt).n()
                &&& s != self
                &&& final(rt).live(s)
                &&& final(rt).st(s.idx as int).parent == Some(self.idx)
                &&& final(rt).st(self.idx as int).children@ == old(rt).st(
                    self.idx as int,
                ).children@.push(s)
            },
    {
        let r = rt.create_scope(Some(self));
        match r {
            Ok((s, d)) => Ok((s, d)),
            Err(f) => Err(f),
        }
    }

    /// Run a computation untracked from this scope: see `Runtime::untrack`.
    pub fn untrack(self, rt: &mut Runtime, e: &crate::state::Expr) -> (r: Result<
        crate::value::Value,
        Fault,
    >)
        requires
            old(rt).wf(),
        ensures
            final(rt).wf(),
            final(rt).stack@ == old(rt).stack@,
            crate::state::memo_free(*e) && crate::state::size(*e)
                <= crate::engine::MAX_EVAL_DEPTH ==> {
                &&& r == crate::engine::pure_eval(*old(rt), *e)
                &&& *final(rt) == *old(rt)
            },
    {
        rt.untrack(e)
    }

    /// Dispose this scope: remove it and, transitively, every descendant
    /// scope from the arena. Afterwards every handle owned by the subtree
    /// fails fatally on access, and nothing in it is ever re-triggered.
    /// Disposal is owed exactly once; this consumes the handle.
    pub fn dispose(self, rt: &mut Runtime)
        requires
            old(rt).wf(),
            old(rt).live(self),
        ensures
            final(rt).wf(),
            final(rt).states == old(rt).states,
            final(rt).stack == old(rt).stack,
            // only keys of the subtree go away, and they keep their index
            forall|k: DefaultKey| #[trigger] final(rt).smap().contains_key(k)
                ==> old(rt).smap().contains_key(k) && final(rt).smap()[k] == old(rt).smap()[k],
            // everything outside the subtree survives
            forall|k: DefaultKey|
                old(rt).smap().contains_key(k) && !in_subtree(
                    old(rt).states@,
                    old(rt).smap()[k] as int,
                    self.idx as int,
                ) ==> #[trigger] final(rt).smap().contains_key(k),
            // nothing in the subtree survives: this scope and every
            // descendant is gone
            forall|k: DefaultKey| #[trigger] final(rt).smap().contains_key(k)
                ==> !in_subtree(old(rt).states@, final(rt).smap()[k] as int, self.idx as int),
            !final(rt).live(self),
    {
        proof {
            assert forall|k: DefaultKey|
                old(rt).smap().contains_key(k) && old(rt).smap()[k] == self.idx implies k
                == self.key by {}
        }
        rt.dispose_sub(self);
    }
}

impl ScopeDisposer {
    /// Dispose the scope this disposer was created for. See
    /// `Scope::dispose`.
    pub fn dispose(self, rt: &mut Runtime)
        requires
            old(rt).wf(),
            old(rt).live(self.scope),
        ensures
            final(rt).wf(),
            final(rt).states == old(rt).states,
            final(rt).stack == old(rt).stack,
            forall|k: DefaultKey| #[trigger] final(rt).smap().contains_key(k)
                ==> old(rt).smap().contains_key(k) && final(rt).smap()[k] == old(rt).smap()[k],
            forall|k: DefaultKey|
                old(rt).smap().contains_key(k) && !in_subtree(
                    old(rt).states@,
                    old(rt).smap()[k] as int,
                    self.scope.idx as int,
                ) ==> #[trigger] final(rt).smap().contains_key(k),
            forall|k: DefaultKey| #[trigger] final(rt).smap().contains_key(k)
                ==> !in_subtree(
                    old(rt).states@,
                    final(rt).smap()[k] as int,
                    self.scope.idx as int,
                ),
            !final(rt).live(self.scope),
    {
        self.scope.dispose(rt)
    }
}

/// After disposal, no handle of the disposed subtree resolves: a scope that
/// was live inside the subtree (the disposed scope itself, or any
/// descendant, however deep) is dead in the new state, so every access
/// through it — and through any signal, memo or effect handle it owns —
/// faults instead of answering.
pub proof fn lemma_disposed_subtree_dead(pre: Runtime, post: Runtime, root: Scope, s: Scope)
    requires
        post.states == pre.states,
        forall|k: DefaultKey| #[trigger] post.smap().contains_key(k) ==> pre.smap().contains_key(
            k,
        ) && post.smap()[k] == pre.smap()[k],
        forall|k: DefaultKey| #[trigger] post.smap().contains_key(k) ==> !in_subtree(
            pre.states@,
            post.smap()[k] as int,
            root.idx as int,
        ),
        pre.live(s),
        in_subtree(pre.states@, s.idx as int, root.idx as int),
    ensures
        !post.live(s),
{
    if post.live(s) {
        assert(post.smap().contains_key(s.key));
        assert(!in_subtree(pre.states@, post.smap()[s.key] as int, root.idx as int));
    }
}

} // verus!
